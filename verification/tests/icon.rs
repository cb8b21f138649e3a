use codex_ble_bridge::icon::{menu_icon_rgba, ICON_SIZE};

#[test]
fn icon_matches_the_drawing_rules() {
    const WIDTH: u32 = 22;
    const HEIGHT: u32 = 22;
    let mut expected = vec![0u8; (WIDTH * HEIGHT * 4) as usize];
    for y in 2..20 {
        for x in 2..20 {
            let border = x == 2 || x == 19 || y == 2 || y == 19;
            let c = ((x == 6 || y == 6 || y == 15) && x >= 6 && x <= 11) || (x == 6 && y >= 6 && y <= 15);
            let diagonal = x >= 13 && x <= 17 && (x + y == 22 || x == y - 1);
            if border || c || diagonal {
                let offset = ((y * WIDTH + x) * 4) as usize;
                expected[offset..offset + 4].copy_from_slice(&[0, 0, 0, 255]);
            }
        }
    }
    assert_eq!(ICON_SIZE, WIDTH);
    assert_eq!(menu_icon_rgba(), expected);
}

#[test]
fn icon_corners_are_transparent() {
    let rgba = menu_icon_rgba();
    assert_eq!(&rgba[0..4], &[0, 0, 0, 0]);
    let frame = ((2 * 22 + 2) * 4) as usize;
    assert_eq!(&rgba[frame..frame + 4], &[0, 0, 0, 255]);
}
