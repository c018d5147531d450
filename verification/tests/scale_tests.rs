use newton_core::write_scaled_block;

#[test]
fn simple_scale() {
    let mut input = Vec::new();
    for i in 0..3 {
        input.push(i);
    }

    let scale = 2;
    let mut output = vec![0; input.len() * scale * scale];

    write_scaled_block(&mut output, &input, scale, |x| x);

    assert_eq!(output, [0, 0, 1, 1, 2, 2, 0, 0, 1, 1, 2, 2]);
}

#[test]
fn simple_scale_pixels_to_pixels() {
    let mut bytes = Vec::new();
    for i in 0..12u8 {
        bytes.push(i);
    }

    let scale = 2;
    let mut input: Vec<[u8; 4]> = Vec::new();
    for chunk in bytes.chunks(4) {
        input.push([chunk[0], chunk[1], chunk[2], chunk[3]]);
    }
    let mut output_pixels = vec![[0u8; 4]; input.len() * scale * scale];

    write_scaled_block(&mut output_pixels, &input, scale, |x| x);

    let mut output: Vec<u8> = Vec::new();
    for pixel in &output_pixels {
        output.extend_from_slice(pixel);
    }
    assert_eq!(
        output,
        vec![
            0, 1, 2, 3, 0, 1, 2, 3, 4, 5, 6, 7, 4, 5, 6, 7, 8, 9, 10, 11, 8, 9, 10, 11, 0, 1, 2,
            3, 0, 1, 2, 3, 4, 5, 6, 7, 4, 5, 6, 7, 8, 9, 10, 11, 8, 9, 10, 11
        ]
    );
}

#[test]
fn simple_scale_color_to_pixels() {
    let mut input = Vec::new();
    for i in 0..3u8 {
        input.push(i);
    }

    let scale = 2;
    let mut output_pixels = vec![[0u8; 4]; input.len() * scale * scale];

    write_scaled_block(&mut output_pixels, &input, scale, |x| [x, x, x, x]);

    let mut output: Vec<u8> = Vec::new();
    for pixel in &output_pixels {
        output.extend_from_slice(pixel);
    }
    assert_eq!(
        output,
        vec![
            0, 0, 0, 0, 0, 0, 0, 0, 1, 1, 1, 1, 1, 1, 1, 1, 2, 2, 2, 2, 2, 2, 2, 2, 0, 0, 0, 0, 0,
            0, 0, 0, 1, 1, 1, 1, 1, 1, 1, 1, 2, 2, 2, 2, 2, 2, 2, 2
        ]
    );
}
