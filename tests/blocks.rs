use image_authentication::cipher::{decrypt_block, encrypt_block, xor_cipher, BLOCK_KEY};
use image_authentication::msb::{convert_msb_to_normal, extract_msb};
use image_authentication::partition::{restore_tampered_blocks, slice_image_into_blocks, BlockProjector};
use image_authentication::raster::PixelBuffer;
use image_authentication::IntegrityError;

/// A `w × h` image whose pixel `(x, y)` is `[x, y, x + y, 255]`.
fn gradient(w: u32, h: u32) -> PixelBuffer {
    let mut data = Vec::new();
    for y in 0..h {
        for x in 0..w {
            data.extend_from_slice(&[x as u8, y as u8, (x + y) as u8, 255]);
        }
    }
    PixelBuffer::from_raw(w, h, data).unwrap()
}

#[test]
fn projector_maps_index_three_to_two_two() {
    let p = BlockProjector::new(4, 4, 2).unwrap();
    assert_eq!(p.blocks_per_row(), 2);
    assert_eq!(p.index_to_coords(3), (2, 2));
    assert_eq!(p.coords_to_index(2, 2), Some(3));
}

#[test]
fn projector_round_trips_every_index() {
    for &(w, h, bs) in &[(4u32, 4u32, 2u32), (5, 3, 2), (130, 70, 32), (1, 1, 7), (9, 9, 3)] {
        let p = BlockProjector::new(w, h, bs).unwrap();
        for i in 0..p.leaf_count() {
            let (x, y) = p.index_to_coords(i);
            assert!(x < w && y < h);
            assert_eq!(p.coords_to_index(x, y), Some(i));
        }
    }
}

#[test]
fn projector_rounds_blocks_per_row_up() {
    let p = BlockProjector::new(5, 3, 2).unwrap();
    assert_eq!(p.blocks_per_row(), 3);
    assert_eq!(p.leaf_count(), 6);
    assert_eq!(p.index_to_coords(4), (2, 2));
}

#[test]
fn projector_refuses_non_origins() {
    let p = BlockProjector::new(4, 4, 2).unwrap();
    assert_eq!(p.coords_to_index(1, 0), None);
    assert_eq!(p.coords_to_index(0, 3), None);
    assert_eq!(p.coords_to_index(4, 0), None);
    assert_eq!(p.coords_to_index(0, 4), None);
}

#[test]
fn projector_refuses_zero_block_size() {
    assert!(matches!(BlockProjector::new(4, 4, 0), Err(IntegrityError::InvalidBlockSize)));
}

#[test]
fn slicing_is_row_major_with_blank_padding() {
    let img = gradient(3, 3);
    let blocks = slice_image_into_blocks(&img, 2).unwrap();
    assert_eq!(blocks.len(), 4);
    for b in &blocks {
        assert_eq!((b.width(), b.height()), (2, 2));
        assert_eq!(b.as_raw().len(), 16);
    }
    assert_eq!(blocks[0].get_pixel(1, 1), [1, 1, 2, 255]);
    assert_eq!(blocks[1].get_pixel(0, 0), [2, 0, 2, 255]);
    assert_eq!(blocks[1].get_pixel(1, 0), [0, 0, 0, 0]);
    assert_eq!(blocks[2].get_pixel(0, 0), [0, 2, 2, 255]);
    assert_eq!(blocks[2].get_pixel(0, 1), [0, 0, 0, 0]);
    assert_eq!(blocks[3].get_pixel(0, 0), [2, 2, 4, 255]);
    assert_eq!(blocks[3].get_pixel(1, 1), [0, 0, 0, 0]);
}

#[test]
fn slicing_refuses_zero_block_size() {
    let img = gradient(3, 3);
    assert!(matches!(slice_image_into_blocks(&img, 0), Err(IntegrityError::InvalidBlockSize)));
}

#[test]
fn slicing_an_empty_image_gives_no_blocks() {
    let img = PixelBuffer::new(0, 0);
    assert_eq!(slice_image_into_blocks(&img, 4).unwrap().len(), 0);
}

#[test]
fn pixel_buffer_from_raw_checks_length() {
    assert!(PixelBuffer::from_raw(2, 2, vec![0; 15]).is_none());
    assert!(PixelBuffer::from_raw(2, 2, vec![0; 16]).is_some());
    let mut b = PixelBuffer::new(2, 1);
    b.put_pixel(1, 0, [9, 8, 7, 6]);
    assert_eq!(b.as_raw(), &vec![0, 0, 0, 0, 9, 8, 7, 6]);
}

#[test]
fn xor_cipher_twice_restores_bytes() {
    let mut data = vec![0u8, 1, 0xAA, 0xFF];
    xor_cipher(&mut data, 0xAA);
    assert_eq!(data, vec![0xAA, 0xAB, 0x00, 0x55]);
    xor_cipher(&mut data, 0xAA);
    assert_eq!(data, vec![0u8, 1, 0xAA, 0xFF]);
}

#[test]
fn encrypted_block_decrypts_to_same_block() {
    let img = gradient(2, 2);
    let enc = encrypt_block(&img, BLOCK_KEY);
    assert_ne!(&enc, img.as_raw());
    assert_eq!(enc[3], 255 ^ 0xAA);
    let dec = decrypt_block(&enc, 2);
    assert_eq!(dec.as_raw(), img.as_raw());
}

#[test]
fn short_payload_decrypts_with_blank_tail() {
    let payload = vec![0xAA, 0xAB, 0xAC, 0xAD, 0x00, 0x01];
    let dec = decrypt_block(&payload, 2);
    assert_eq!(dec.get_pixel(0, 0), [0, 1, 6, 7]);
    assert_eq!(dec.get_pixel(1, 0), [0, 0, 0, 0]);
    assert_eq!(dec.as_raw().len(), 16);
}

#[test]
fn msb_plane_and_back() {
    let img = PixelBuffer::from_raw(2, 1, vec![200, 10, 128, 3, 127, 255, 0, 77]).unwrap();
    let msb = extract_msb(&img);
    assert_eq!(msb.as_raw(), &vec![255, 0, 255, 255, 0, 255, 0, 255]);
    let normal = convert_msb_to_normal(&msb);
    assert_eq!(normal.as_raw(), &vec![192, 64, 192, 255, 64, 192, 64, 255]);
}

#[test]
fn restore_takes_flagged_blocks_from_recovered_copies() {
    let original = gradient(4, 4);
    let replacement = PixelBuffer::from_raw(2, 2, vec![9; 16]).unwrap();
    let tamper = vec![0u32, 1, 0, 0];
    let recovered = vec![None, Some(replacement), None, None];
    let restored = restore_tampered_blocks(&original, &tamper, &recovered, 2).unwrap();
    assert_eq!((restored.width(), restored.height()), (4, 4));
    for y in 0..4 {
        for x in 0..4 {
            let expected = if x >= 2 && y < 2 { [9, 9, 9, 9] } else { original.get_pixel(x, y) };
            assert_eq!(restored.get_pixel(x, y), expected);
        }
    }
}

#[test]
fn restore_leaves_unlisted_blocks_blank() {
    let original = gradient(4, 2);
    let restored = restore_tampered_blocks(&original, &vec![0u32], &vec![None], 2).unwrap();
    assert_eq!(restored.get_pixel(1, 1), original.get_pixel(1, 1));
    assert_eq!(restored.get_pixel(2, 0), [0, 0, 0, 0]);
}

#[test]
fn restore_refuses_zero_block_size() {
    let original = gradient(2, 2);
    assert!(matches!(
        restore_tampered_blocks(&original, &vec![0u32], &vec![None], 0),
        Err(IntegrityError::InvalidBlockSize)
    ));
}
