use mazalot::sheet::{compose_cells, gif_params, quantize, upscale_nearest, Picture};

fn solid(w: u32, h: u32, c: [u8; 4]) -> Picture {
    Picture::filled(w, h, c)
}

fn pixel(p: &Picture, x: u32, y: u32) -> [u8; 4] {
    let i = ((y * p.width + x) * 4) as usize;
    [p.px[i], p.px[i + 1], p.px[i + 2], p.px[i + 3]]
}

#[test]
fn filled_picture() {
    let p = solid(3, 2, [1, 2, 3, 4]);
    assert_eq!(p.px.len(), 24);
    assert!(p.px.chunks(4).all(|c| c == [1, 2, 3, 4]));
}

#[test]
fn contact_sheet_layout() {
    let cells: Vec<Picture> = (0..5u8).map(|i| solid(4, 4, [i * 10, 0, 0, 255])).collect();
    let g = compose_cells(&cells, 3, 2, [9, 9, 9, 255]);
    // cw = 4 + 2; canvas 2 + 3*6 by 2 + 2*6.
    assert_eq!((g.width, g.height), (20, 14));
    assert_eq!(g.px.len(), 20 * 14 * 4);
    for (i, c) in cells.iter().enumerate() {
        let (ox, oy) = (2 + (i as u32 % 3) * 6, 2 + (i as u32 / 3) * 6);
        for y in 0..4 {
            for x in 0..4 {
                assert_eq!(pixel(&g, ox + x, oy + y), pixel(c, x, y));
            }
        }
    }
    // Gutters and the empty sixth slot keep the background.
    assert_eq!(pixel(&g, 0, 0), [9, 9, 9, 255]);
    assert_eq!(pixel(&g, 6, 3), [9, 9, 9, 255]);
    assert_eq!(pixel(&g, 15, 9), [9, 9, 9, 255]);
}

#[test]
fn transparent_cells_show_the_background() {
    let cells = vec![solid(2, 2, [200, 0, 0, 0])];
    let g = compose_cells(&cells, 1, 1, [1, 2, 3, 255]);
    assert_eq!((g.width, g.height), (4, 4));
    assert!(g.px.chunks(4).all(|c| c == [1, 2, 3, 255]));
}

#[test]
fn upscale_doubles_each_pixel() {
    let mut p = solid(2, 1, [0, 0, 0, 255]);
    p.px[4..8].copy_from_slice(&[255, 128, 0, 255]);
    let u = upscale_nearest(&p, 2);
    assert_eq!((u.width, u.height), (4, 2));
    assert_eq!(u.px.len(), 32);
    for y in 0..2 {
        assert_eq!(pixel(&u, 0, y), [0, 0, 0, 255]);
        assert_eq!(pixel(&u, 1, y), [0, 0, 0, 255]);
        assert_eq!(pixel(&u, 2, y), [255, 128, 0, 255]);
        assert_eq!(pixel(&u, 3, y), [255, 128, 0, 255]);
    }
    let same = upscale_nearest(&p, 1);
    assert_eq!((same.width, same.height), (2, 1));
    assert_eq!(same.px, p.px);
}

#[test]
fn gif_delay_rounding_and_geometry() {
    let frames = vec![solid(30, 20, [0; 4]), solid(1, 1, [0; 4])];
    assert!(matches!(gif_params(&frames, 40), Ok(Some((30, 20, 4)))));
    assert!(matches!(gif_params(&frames, 45), Ok(Some((30, 20, 4)))));
    assert!(matches!(gif_params(&frames, 9), Ok(Some((30, 20, 0)))));
    assert!(matches!(gif_params(&frames, u32::MAX), Ok(Some((30, 20, u16::MAX)))));
    assert!(matches!(gif_params(&vec![], 40), Ok(None)));
}

#[test]
fn oversized_frames_are_refused() {
    let wide = Picture { px: Vec::new(), width: 70_000, height: 0 };
    assert!(gif_params(&vec![wide], 40).is_err());
    let tall = Picture { px: Vec::new(), width: 0, height: 65_536 };
    assert!(gif_params(&vec![tall], 40).is_err());
    let edge = Picture { px: Vec::new(), width: 65_535, height: 0 };
    assert!(matches!(gif_params(&vec![edge], 40), Ok(Some((65_535, 0, 4)))));
}

#[test]
fn few_colours_get_an_exact_sorted_palette() {
    let img = Picture { px: vec![255, 128, 0, 255, 0, 0, 0, 255, 255, 128, 0, 255], width: 3, height: 1 };
    let f = quantize(img, 3, 1, 7);
    assert_eq!((f.width, f.height, f.delay), (3, 1, 7));
    assert!(f.dispose_background);
    assert_eq!(f.palette, vec![0, 0, 0, 255, 128, 0]);
    assert_eq!(f.indices, vec![1, 0, 1]);
    assert_eq!(f.transparent, None);
}

#[test]
fn a_transparent_pixel_names_the_transparent_index() {
    let img = Picture { px: vec![10, 20, 30, 0, 5, 5, 5, 200], width: 2, height: 1 };
    let f = quantize(img, 2, 1, 0);
    assert_eq!(f.palette, vec![5, 5, 5, 10, 20, 30]);
    assert_eq!(f.indices, vec![1, 0]);
    assert_eq!(f.transparent, Some(1));
}

#[test]
fn many_colours_still_index_every_pixel() {
    let (w, h) = (32u16, 32u16);
    let mut px = Vec::new();
    for i in 0..(w as u32 * h as u32) {
        px.extend_from_slice(&[(i * 7) as u8, (i * 13) as u8, (i / 4) as u8, 255]);
    }
    let f = quantize(Picture { px, width: w as u32, height: h as u32 }, w, h, 4);
    assert_eq!(f.indices.len(), 1024);
    assert_eq!(f.palette.len() % 3, 0);
    assert!(f.palette.len() <= 256 * 3);
}
