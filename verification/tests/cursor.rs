use alioth::cursor::{
    CursorElement, CursorFrame, CursorImage, CursorImageStatus, CursorRender, Error,
};

fn le(value: u32) -> [u8; 4] {
    value.to_le_bytes()
}

/// Bytes of a cursor file with one square image for each (side, delay, fill byte).
fn cursor_file(images: &[(u32, u32, u8)]) -> Vec<u8> {
    let count = images.len() as u32;
    let mut data = Vec::new();
    data.extend_from_slice(b"Xcur");
    data.extend_from_slice(&le(16));
    data.extend_from_slice(&le(0x0001_0000));
    data.extend_from_slice(&le(count));
    let mut position = 16 + 12 * count;
    for (side, _, _) in images {
        data.extend_from_slice(&le(0xfffd_0002));
        data.extend_from_slice(&le(*side));
        data.extend_from_slice(&le(position));
        position += 36 + 4 * side * side;
    }
    for (side, delay, fill) in images {
        data.extend_from_slice(&le(36));
        data.extend_from_slice(&le(0xfffd_0002));
        data.extend_from_slice(&le(*side));
        data.extend_from_slice(&le(1));
        data.extend_from_slice(&le(*side));
        data.extend_from_slice(&le(*side));
        data.extend_from_slice(&le(0));
        data.extend_from_slice(&le(0));
        data.extend_from_slice(&le(*delay));
        for _ in 0..(4 * side * side) {
            data.push(*fill);
        }
    }
    data
}

fn image(side: u32, delay: u32, fill: u8) -> CursorImage {
    CursorImage {
        width: side,
        height: side,
        delay,
        pixels_rgba: vec![fill; (4 * side * side) as usize],
    }
}

#[test]
fn cursor_file_becomes_the_animation_of_its_size() {
    let data = cursor_file(&[(2, 100, 0x11), (3, 50, 0x22), (2, 200, 0x33)]);
    let cursor = CursorElement::new(Some(&data), 2).unwrap();
    assert_eq!(
        cursor.default,
        vec![
            CursorFrame { until: 100, image: image(2, 100, 0x11) },
            CursorFrame { until: 300, image: image(2, 200, 0x33) },
        ]
    );
    assert_eq!(cursor.total_delay, 300);
    assert_eq!(cursor.current_delay, 0);
    assert_eq!(cursor.status, CursorImageStatus::Default);
    assert_eq!(cursor.size, 2);
}

#[test]
fn cursor_file_without_an_image_of_the_size_gives_no_frame() {
    let data = cursor_file(&[(3, 50, 0x22)]);
    let cursor = CursorElement::new(Some(&data), 24).unwrap();
    assert_eq!(cursor.default, Vec::new());
    assert_eq!(cursor.total_delay, 0);
    assert_eq!(cursor.current_frame(), None);
}

#[test]
fn bytes_that_are_no_cursor_file_fail() {
    let data = vec![0x58, 0x63, 0x75, 0x72, 0x10];
    assert_eq!(CursorElement::new(Some(&data), 24), Err(Error::CursorIconLoadFailure));
    let mut broken = cursor_file(&[(2, 100, 0x11)]);
    broken.truncate(broken.len() - 1);
    assert_eq!(CursorElement::new(Some(&broken), 2), Err(Error::CursorIconLoadFailure));
}

#[test]
fn missing_icon_fails() {
    assert_eq!(CursorElement::new(None, 24), Err(Error::CursorIconLoadFailure));
}

#[test]
fn images_are_shown_one_after_the_other() {
    let cursor = CursorElement::from_images(
        vec![image(2, 100, 1), image(2, 0, 2), image(2, 50, 3), image(4, 70, 4)],
        2,
    );
    assert_eq!(
        cursor.default,
        vec![
            CursorFrame { until: 100, image: image(2, 0, 2) },
            CursorFrame { until: 150, image: image(2, 50, 3) },
        ]
    );
    assert_eq!(cursor.total_delay, 150);
}

#[test]
fn images_of_other_sizes_take_no_time() {
    let cursor = CursorElement::from_images(
        vec![image(4, 70, 4), image(2, u32::MAX, 1), image(3, 9, 5), image(2, u32::MAX, 2)],
        2,
    );
    assert_eq!(cursor.default.len(), 2);
    assert_eq!(cursor.default[0].until, u32::MAX as u64);
    assert_eq!(cursor.default[1].until, 2 * (u32::MAX as u64));
    assert_eq!(cursor.total_delay, 8_589_934_590);
}

#[test]
fn animation_moves_with_the_clock() {
    let mut cursor = CursorElement::from_images(vec![image(2, 100, 1), image(2, 200, 2)], 2);
    cursor.update_animation_status(7);
    assert_eq!(cursor.current_delay, 300 % 7);
    assert_eq!(cursor.current_frame(), Some(0));
    cursor.update_animation_status(301);
    assert_eq!(cursor.current_delay, 300);
    assert_eq!(cursor.current_frame(), Some(1));
    cursor.update_animation_status(199);
    assert_eq!(cursor.current_delay, 101);
    assert_eq!(cursor.current_frame(), Some(1));
    cursor.update_animation_status(200);
    assert_eq!(cursor.current_delay, 100);
    assert_eq!(cursor.current_frame(), Some(0));
}

#[test]
fn pointer_draws_what_its_status_says() {
    let mut cursor = CursorElement::from_images(vec![image(2, 100, 1), image(2, 200, 2)], 2);
    assert_eq!(cursor.render_elements(), CursorRender::Frame(0));
    cursor.update_animation_status(301);
    assert_eq!(cursor.render_elements(), CursorRender::Frame(1));
    cursor.set_status(CursorImageStatus::Hidden);
    assert_eq!(cursor.status, CursorImageStatus::Hidden);
    assert_eq!(cursor.render_elements(), CursorRender::Nothing);
    cursor.set_status(CursorImageStatus::Surface);
    assert_eq!(cursor.render_elements(), CursorRender::Surface);
    assert_eq!(cursor.current_delay, 300);
}

#[test]
fn cursor_error_has_its_text() {
    assert_eq!(Error::CursorIconLoadFailure.message(), "Failed to load cursor icon");
}
