use dsh_desktop::icon::{largest_frame, window_icon, IconFrame};
use ico::{IconDir, IconDirEntry, IconImage, ResourceType};

fn image(width: u32, height: u32, shade: u8) -> IconImage {
    let mut rgba = Vec::new();
    for i in 0..width * height {
        rgba.extend_from_slice(&[shade, i as u8, 7, 255]);
    }
    IconImage::from_rgba_data(width, height, rgba)
}

fn file(entries: Vec<IconDirEntry>) -> Vec<u8> {
    let mut dir = IconDir::new(ResourceType::Icon);
    for entry in entries {
        dir.add_entry(entry);
    }
    let mut bytes = Vec::new();
    dir.write(&mut bytes).unwrap();
    bytes
}

fn bmp(width: u32, height: u32, shade: u8) -> IconDirEntry {
    IconDirEntry::encode_as_bmp(&image(width, height, shade)).unwrap()
}

fn png(width: u32, height: u32, shade: u8) -> IconDirEntry {
    IconDirEntry::encode_as_png(&image(width, height, shade)).unwrap()
}

/// An ICO file with one bitmap of 32 bits per pixel, of which only the header is there.
fn header_only(width: u32, rows: u32) -> Vec<u8> {
    let mut bytes = vec![0, 0, 1, 0, 1, 0];
    bytes.extend_from_slice(&[0, 0, 0, 0, 1, 0, 32, 0, 40, 0, 0, 0, 22, 0, 0, 0]);
    bytes.extend_from_slice(&40u32.to_le_bytes());
    bytes.extend_from_slice(&width.to_le_bytes());
    bytes.extend_from_slice(&(2 * rows).to_le_bytes());
    bytes.extend_from_slice(&[1, 0, 32, 0]);
    bytes.resize(22 + 40, 0);
    bytes
}

#[test]
fn largest_frame_of_the_file_is_taken() {
    let frame = window_icon(&file(vec![bmp(4, 4, 1), png(8, 8, 2), bmp(2, 30, 3)])).unwrap();
    assert_eq!((frame.width, frame.height), (8, 8));
    assert_eq!(frame.rgba, image(8, 8, 2).rgba_data());
}

#[test]
fn first_of_the_largest_is_taken() {
    let frame = window_icon(&file(vec![bmp(2, 2, 9), bmp(4, 4, 1), png(2, 8, 2), png(4, 4, 3)])).unwrap();
    assert_eq!((frame.width, frame.height), (4, 4));
    assert_eq!(frame.rgba, image(4, 4, 1).rgba_data());
}

#[test]
fn frame_is_decoded_to_rgba() {
    let frame = window_icon(&file(vec![bmp(1, 2, 5)])).unwrap();
    assert_eq!((frame.width, frame.height), (1, 2));
    assert_eq!(frame.rgba, vec![5, 0, 7, 255, 5, 1, 7, 255]);
}

#[test]
fn broken_frame_is_passed_over() {
    let good = bmp(2, 2, 1);
    let mut bytes = file(vec![good, png(8, 8, 2)]);
    let end = bytes.len();
    // Spoil the image data of the second entry behind its signature.
    bytes[end - 30] ^= 0xff;
    bytes[end - 31] ^= 0xff;
    let frame = window_icon(&bytes).unwrap();
    assert_eq!((frame.width, frame.height), (2, 2));
}

#[test]
fn no_frame_no_icon() {
    assert!(window_icon(&[]).is_none());
    assert!(window_icon(b"not an icon").is_none());
    assert!(window_icon(&file(vec![])).is_none());
    let bytes = file(vec![bmp(4, 4, 1)]);
    assert!(window_icon(&bytes[..bytes.len() - 1]).is_none());
    assert!(window_icon(&bytes[..20]).is_none());
    assert!(window_icon(&header_only(1, 1)).is_none());
}

#[test]
fn entry_that_claims_too_much_is_refused() {
    let mut bytes = file(vec![bmp(4, 4, 1)]);
    bytes[14..18].copy_from_slice(&u32::MAX.to_le_bytes());
    assert!(window_icon(&bytes).is_none());
}

#[test]
fn oversized_bitmap_is_passed_over() {
    assert!(window_icon(&header_only(0x1000_0000, 1)).is_none());
    assert!(window_icon(&header_only(0x8000, 0x1_0000)).is_none());
    assert!(window_icon(&header_only(0x1_0000, 0x1_0000)).is_none());
}

/// An ICO file with one PNG image of one pixel, whose animation control chunk counts this many frames.
fn animated(frames: u32) -> Vec<u8> {
    let still = png(1, 1, 2);
    let data = still.data();
    // The signature takes 8 bytes, and the header chunk 25.
    let mut image = data[..33].to_vec();
    image.extend_from_slice(&8u32.to_be_bytes());
    image.extend_from_slice(b"acTL");
    image.extend_from_slice(&frames.to_be_bytes());
    image.extend_from_slice(&[0; 8]);
    image.extend_from_slice(&data[33..]);
    let mut bytes = vec![0, 0, 1, 0, 1, 0, 1, 1, 0, 0, 1, 0, 32, 0];
    bytes.extend_from_slice(&(image.len() as u32).to_le_bytes());
    bytes.extend_from_slice(&22u32.to_le_bytes());
    bytes.extend_from_slice(&image);
    bytes
}

#[test]
fn animation_is_taken_where_its_frames_can_be_counted() {
    let frame = window_icon(&animated(1)).unwrap();
    assert_eq!((frame.width, frame.height), (1, 1));
    assert_eq!(frame.rgba, image(1, 1, 2).rgba_data());
    assert_eq!(window_icon(&animated(u32::MAX)).is_some(), usize::BITS > 32);
}

fn frame(width: u32, height: u32) -> IconFrame {
    IconFrame { width, height, rgba: Vec::new() }
}

#[test]
fn largest_is_told_by_its_pixels() {
    assert_eq!(largest_frame(&vec![]), None);
    assert_eq!(largest_frame(&vec![frame(0, 9)]), Some(0));
    assert_eq!(largest_frame(&vec![frame(10, 1), frame(4, 4), frame(16, 1), frame(15, 1)]), Some(1));
    assert_eq!(largest_frame(&vec![frame(u32::MAX, 2), frame(u32::MAX, u32::MAX)]), Some(1));
}
