use tile_puzzle::app::{
    clear_frame, draw_sprite, fill_rectangular, SCREEN_HEIGHT, SCREEN_WIDTH,
};
use tile_puzzle::sprite::{Size, Sprite};

fn screen() -> Vec<u8> {
    vec![7u8; (SCREEN_WIDTH * SCREEN_HEIGHT * 4) as usize]
}

fn screen_px(frame: &[u8], x: u32, y: u32) -> [u8; 4] {
    let i = ((y * SCREEN_WIDTH + x) * 4) as usize;
    [frame[i], frame[i + 1], frame[i + 2], frame[i + 3]]
}

#[test]
fn clearing_paints_whole_pixels() {
    let mut frame = vec![9u8; 10];
    clear_frame(&mut frame, [1, 2, 3, 4]);
    assert_eq!(frame, vec![1, 2, 3, 4, 1, 2, 3, 4, 9, 9]);
}

#[test]
fn drawing_copies_opaque_pixels_only() {
    // A 2 by 2 sprite: opaque red, transparent green, opaque blue, half-transparent white.
    let sprite = Sprite::new(
        vec![255, 0, 0, 255, 0, 255, 0, 0, 0, 0, 255, 255, 255, 255, 255, 128],
        Size { x: 2, y: 2 },
    );
    let mut frame = screen();
    draw_sprite(&mut frame, &sprite, (10, 20));
    // The sprite's top left corner lands at (10 - 1, 20 - 1).
    assert_eq!(screen_px(&frame, 9, 19), [255, 0, 0, 255]);
    assert_eq!(screen_px(&frame, 10, 19), [7, 7, 7, 7]);
    assert_eq!(screen_px(&frame, 9, 20), [0, 0, 255, 255]);
    assert_eq!(screen_px(&frame, 10, 20), [7, 7, 7, 7]);
    let changed = frame.iter().filter(|&&b| b != 7).count();
    assert_eq!(changed, 8);
}

#[test]
fn drawing_clips_at_the_screen_edge() {
    let sprite = Sprite::new(vec![1, 2, 3, 255].repeat(9), Size { x: 3, y: 3 });
    let mut frame = screen();
    draw_sprite(&mut frame, &sprite, (0, 0));
    // Only the pixels at screen (0..2, 0..2) are inside.
    assert_eq!(screen_px(&frame, 0, 0), [1, 2, 3, 255]);
    assert_eq!(screen_px(&frame, 1, 1), [1, 2, 3, 255]);
    assert_eq!(screen_px(&frame, 2, 0), [7, 7, 7, 7]);
    let changed = frame.iter().filter(|&&b| b != 7).count();
    assert_eq!(changed, 4 * 4);
    let mut far = screen();
    draw_sprite(&mut far, &sprite, (1000, -1000));
    assert_eq!(far, screen());
}

#[test]
fn filling_a_rectangle() {
    let mut buffer = vec![0u8; 5 * 4 * 4];
    fill_rectangular(&mut buffer, Size { x: 5, y: 4 }, Size { x: 2, y: 2 }, (2, 2), [9, 8, 7, 6]);
    for y in 0..4u32 {
        for x in 0..5u32 {
            let i = ((y * 5 + x) * 4) as usize;
            let want = if (1..3).contains(&x) && (1..3).contains(&y) { [9, 8, 7, 6] } else { [0; 4] };
            assert_eq!(&buffer[i..i + 4], &want);
        }
    }
}

#[test]
fn filling_an_empty_rectangle_changes_nothing() {
    let mut buffer = vec![3u8; 16];
    fill_rectangular(&mut buffer, Size { x: 2, y: 2 }, Size { x: 1, y: 1 }, (1, 1), [9, 9, 9, 9]);
    assert_eq!(buffer, vec![3u8; 16]);
}

#[test]
fn sprite_partly_off_screen_draws_only_its_visible_pixels() {
    // A 3 by 3 opaque sprite centred on the top-left corner: only its
    // bottom-right 2 by 2 pixels land on the screen.
    let sprite = Sprite::new([200u8, 200, 200, 255].repeat(3 * 3), Size { x: 3, y: 3 });
    let mut frame = screen();
    draw_sprite(&mut frame, &sprite, (0, 0));
    assert_eq!(screen_px(&frame, 0, 0), [200, 200, 200, 255]);
    assert_eq!(screen_px(&frame, 1, 1), [200, 200, 200, 255]);
    assert_eq!(screen_px(&frame, 2, 0), [7, 7, 7, 7]);
    assert_eq!(screen_px(&frame, 0, 2), [7, 7, 7, 7]);
}
