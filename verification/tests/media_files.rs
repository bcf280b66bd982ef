use dice_wars::media::{downsample, flip_rows, gif_bytes, gif_lzw, quantize, scale_nearest, wav_bytes, BitWriter};

/// A plain GIF LZW decoder (8-bit minimum code size), to check the encoder.
fn lzw_decode(bytes: &[u8]) -> Vec<u8> {
    let mut pos = 0usize;
    let read = |pos: &mut usize, size: u32| -> u32 {
        let mut v = 0u32;
        for k in 0..size {
            let byte = bytes[(*pos + k as usize) / 8];
            let bit = (byte >> ((*pos + k as usize) % 8)) & 1;
            v |= (bit as u32) << k;
        }
        *pos += size as usize;
        v
    };
    let mut out = Vec::new();
    let mut table: Vec<Vec<u8>> = Vec::new();
    let reset = |table: &mut Vec<Vec<u8>>| {
        table.clear();
        for i in 0..256u32 {
            table.push(vec![i as u8]);
        }
        table.push(vec![]);
        table.push(vec![]);
    };
    reset(&mut table);
    let mut size = 9u32;
    let mut prev: Option<Vec<u8>> = None;
    loop {
        let code = read(&mut pos, size);
        if code == 256 {
            reset(&mut table);
            size = 9;
            prev = None;
            continue;
        }
        if code == 257 {
            break;
        }
        let entry = if (code as usize) < table.len() {
            table[code as usize].clone()
        } else {
            let p = prev.clone().unwrap();
            let mut e = p.clone();
            e.push(p[0]);
            e
        };
        out.extend_from_slice(&entry);
        if let Some(p) = prev {
            let mut e = p.clone();
            e.push(entry[0]);
            table.push(e);
        }
        if table.len() == (1 << size) && size < 12 {
            size += 1;
        }
        prev = Some(entry);
    }
    out
}

#[test]
fn wav_header_and_samples() {
    let d = wav_bytes(&vec![0i16, -1, 32767]);
    assert_eq!(d.len(), 44 + 6);
    assert_eq!(&d[0..4], b"RIFF");
    assert_eq!(&d[4..8], &(36u32 + 6).to_le_bytes());
    assert_eq!(&d[8..16], b"WAVEfmt ");
    assert_eq!(&d[16..20], &16u32.to_le_bytes());
    assert_eq!(&d[20..24], &[1, 0, 1, 0]);
    assert_eq!(&d[24..28], &44_100u32.to_le_bytes());
    assert_eq!(&d[28..32], &88_200u32.to_le_bytes());
    assert_eq!(&d[32..36], &[2, 0, 16, 0]);
    assert_eq!(&d[36..40], b"data");
    assert_eq!(&d[40..44], &6u32.to_le_bytes());
    assert_eq!(&d[44..], &[0, 0, 0xFF, 0xFF, 0xFF, 0x7F]);
}

#[test]
fn quantize_to_web_cube() {
    let img = vec![0u8, 0, 0, 255, 255, 255, 255, 255, 51, 102, 153, 9];
    let q = quantize(&img, 2, 1);
    assert_eq!(q, vec![0, 215]);
    let q = quantize(&img[4..].to_vec(), 1, 1);
    assert_eq!(q, vec![215]);
    let q = quantize(&vec![51, 102, 153, 0], 1, 1);
    // levels 1, 2, 3
    assert_eq!(q, vec![36 + 2 * 6 + 3]);
}

#[test]
fn downsample_averages_boxes() {
    // 2x2 image, one output pixel
    let img = vec![10u8, 0, 0, 255, 20, 0, 0, 255, 30, 0, 0, 255, 41, 4, 0, 255];
    assert_eq!(downsample(&img, 2, 2, 2), vec![25, 1, 0, 255]);
    // 3x2 by 2 leaves one pixel; the odd column is dropped
    let img3: Vec<u8> = (0..24).map(|i| i as u8).collect();
    let d = downsample(&img3, 3, 2, 2);
    assert_eq!(d.len(), 4);
    assert_eq!(d[0], ((0 + 4 + 12 + 16) / 4) as u8);
    assert_eq!(downsample(&img3, 3, 2, 1), img3);
}

#[test]
fn bit_writer_packs_low_bits_first() {
    let mut bw = BitWriter::new();
    bw.put(256, 9);
    bw.put(1, 9);
    bw.put(257, 9);
    let out = bw.finish();
    // 27 bits: 256 | 1 << 9 | 257 << 18
    let v: u32 = 256 | (1 << 9) | (257 << 18);
    assert_eq!(out, v.to_le_bytes().to_vec());
}

#[test]
fn lzw_of_a_tiny_frame() {
    let out = gif_lzw(&vec![7u8]);
    // clear, 7, end at 9 bits
    let v: u32 = 256 | (7 << 9) | (257 << 18);
    assert_eq!(out, v.to_le_bytes().to_vec());
}

#[test]
fn lzw_decodes_back() {
    let mut frames: Vec<Vec<u8>> = vec![
        vec![0; 1000],
        (0..5000u32).map(|i| (i % 7) as u8).collect(),
        (0..3000u32).map(|i| ((i * 2654435761u32) >> 24) as u8).collect(),
    ];
    let mut x = 12345u32;
    let noisy: Vec<u8> = (0..20000)
        .map(|_| {
            x = x.wrapping_mul(1103515245).wrapping_add(12345);
            ((x >> 16) % 216) as u8
        })
        .collect();
    frames.push(noisy);
    for f in &frames {
        assert_eq!(&lzw_decode(&gif_lzw(f)), f);
    }
}

#[test]
fn gif_file_layout() {
    let frames = vec![vec![0u8, 1, 2, 3], vec![5u8; 4]];
    let g = gif_bytes(2, 2, &frames, 12);
    assert_eq!(&g[0..6], b"GIF89a");
    assert_eq!(&g[6..10], &[2, 0, 2, 0]);
    assert_eq!(&g[10..13], &[0xF7, 0, 0]);
    // palette entry 215 is white, 216.. black
    assert_eq!(&g[13 + 215 * 3..13 + 216 * 3], &[255, 255, 255]);
    assert_eq!(&g[13 + 216 * 3..13 + 217 * 3], &[0, 0, 0]);
    assert_eq!(&g[13 + 1 * 3..13 + 2 * 3], &[0, 0, 51]);
    let ext = 13 + 768;
    assert_eq!(&g[ext..ext + 3], &[0x21, 0xFF, 0x0B]);
    assert_eq!(&g[ext + 3..ext + 14], b"NETSCAPE2.0");
    let f0 = ext + 19;
    assert_eq!(&g[f0..f0 + 6], &[0x21, 0xF9, 4, 0, 12, 0]);
    assert_eq!(&g[f0 + 6..f0 + 13], &[0, 0, 0x2C, 0, 0, 0, 0]);
    assert_eq!(&g[f0 + 13..f0 + 19], &[2, 0, 2, 0, 0, 8]);
    let z = gif_lzw(&frames[0]);
    assert_eq!(g[f0 + 19] as usize, z.len());
    assert_eq!(&g[f0 + 20..f0 + 20 + z.len()], &z[..]);
    assert_eq!(g[f0 + 20 + z.len()], 0);
    assert_eq!(*g.last().unwrap(), 0x3B);
}

#[test]
fn gif_sub_blocks_of_255() {
    // a noisy frame compresses to more than 255 bytes
    let mut x = 99u32;
    let f: Vec<u8> = (0..2000)
        .map(|_| {
            x = x.wrapping_mul(1103515245).wrapping_add(12345);
            (x >> 24) as u8
        })
        .collect();
    let z = gif_lzw(&f);
    assert!(z.len() > 255);
    let g = gif_bytes(40, 50, &vec![f], 12);
    let f0 = 13 + 768 + 19;
    let mut pos = f0 + 19;
    let mut data = Vec::new();
    loop {
        let n = g[pos] as usize;
        pos += 1;
        if n == 0 {
            break;
        }
        assert!(n == 255 || data.len() + n == z.len());
        data.extend_from_slice(&g[pos..pos + n]);
        pos += n;
    }
    assert_eq!(data, z);
    assert_eq!(g[pos], 0x3B);
}

#[test]
fn icon_scaling_picks_nearest_pixels() {
    // a 4x2 image whose pixel (x, y) has red = 10 * y + x
    let mut img = Vec::new();
    for y in 0..2u8 {
        for x in 0..4u8 {
            img.extend_from_slice(&[10 * y + x, 100, 200, 255]);
        }
    }
    let out = scale_nearest(&img, 4, 2, 2);
    assert_eq!(out.len(), 16);
    // output (x, y) takes source (x * 4 / 2, y * 2 / 2)
    let reds: Vec<u8> = out.chunks(4).map(|p| p[0]).collect();
    assert_eq!(reds, vec![0, 2, 10, 12]);
    assert!(out.chunks(4).all(|p| p[1] == 100 && p[2] == 200 && p[3] == 255));
    // upscaling repeats pixels
    let up = scale_nearest(&img, 4, 2, 8);
    assert_eq!(up.len(), 8 * 8 * 4);
    assert_eq!(up[0], 0);
    assert_eq!(up[4], 0);
    assert_eq!(up[8], 1);
    assert_eq!(up[(7 * 8 + 7) * 4], 13);
    assert!(scale_nearest(&img, 4, 2, 0).is_empty());
}

#[test]
fn flipping_reverses_rows_only() {
    // 2x3 image, pixel (x, y) = [y, x, 7, 9]
    let mut img = Vec::new();
    for y in 0..3u8 {
        for x in 0..2u8 {
            img.extend_from_slice(&[y, x, 7, 9]);
        }
    }
    img.push(42); // a trailing byte past the image stays put
    let out = flip_rows(&img, 2, 3);
    assert_eq!(out.len(), img.len());
    let rows: Vec<(u8, u8)> = out[..24].chunks(4).map(|p| (p[0], p[1])).collect();
    assert_eq!(rows, vec![(2, 0), (2, 1), (1, 0), (1, 1), (0, 0), (0, 1)]);
    assert_eq!(out[24], 42);
    // flipping twice gives the image back
    assert_eq!(flip_rows(&out, 2, 3), img);
}
