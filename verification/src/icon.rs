//! The icon of the window (taskbar / titlebar / alt-tab).
use vstd::prelude::*;

verus! {

/// `ico::IconDir`: the entries of an ICO file.
#[verifier::external_type_specification]
#[verifier::external_body]
pub struct ExIconDir(ico::IconDir);

/// The entries of an icon directory: of each its width, its height and its encoded image, as
/// `ico::IconDirEntry::width`, `height` and `data` give them.
pub uninterp spec fn directory_entries(dir: ico::IconDir) -> Seq<(u32, u32, Seq<u8>)>;

/// What `ico::IconDir::read` finds in a file: the entries, or `None` where it gives an error.
pub uninterp spec fn ico_directory(file: Seq<u8>) -> Option<Seq<(u32, u32, Seq<u8>)>>;

/// What `ico::IconDirEntry::decode` makes of an entry: the RGBA bytes of its image, or `None` where
/// it gives an error.
pub uninterp spec fn ico_pixels(width: u32, height: u32, data: Seq<u8>) -> Option<Seq<u8>>;

/// The number in two bytes, the low one first.
pub open spec fn u16_at(bytes: Seq<u8>, i: int) -> int {
    bytes[i] + 256 * bytes[i + 1]
}

/// The number in four bytes, the low one first.
pub open spec fn u32_at(bytes: Seq<u8>, i: int) -> int {
    u16_at(bytes, i) + 0x1_0000 * u16_at(bytes, i + 2)
}

/// How many bytes of image data entry `k` of an ICO file says it has.
pub open spec fn claimed_len(file: Seq<u8>, k: int) -> int {
    u32_at(file, 6 + 16 * k + 8)
}

/// No entry of an ICO file says that it has more image data than there are bytes in the file. The
/// number of entries stands behind two fields of two bytes, and an entry takes 16 bytes.
pub open spec fn claims_fit(file: Seq<u8>) -> bool {
    file.len() >= 6 ==> forall|k: int|
        0 <= k < u16_at(file, 4) && 6 + 16 * k + 12 <= file.len() ==> #[trigger] claimed_len(file, k)
            <= file.len()
}

/// The type of an animation control chunk (`acTL`) of a PNG file stands at `i`, and behind it the
/// largest number of frames that there can be.
pub open spec fn full_count_at(bytes: Seq<u8>, i: int) -> bool {
    &&& 0 <= i && i + 8 <= bytes.len()
    &&& bytes[i] == 0x61 && bytes[i + 1] == 0x63 && bytes[i + 2] == 0x54 && bytes[i + 3] == 0x4c
    &&& bytes[i + 4] == 0xff && bytes[i + 5] == 0xff && bytes[i + 6] == 0xff && bytes[i + 7] == 0xff
}

/// The PNG decoder can count the frames of an animation, and one more: its `usize` is wider than the
/// 32 bits of the number in the file, or that number is not the largest.
pub open spec fn frames_count(bytes: Seq<u8>) -> bool {
    usize::MAX > u32::MAX || forall|i: int| !#[trigger] full_count_at(bytes, i)
}

/// `ico::IconDir::read`, on a file in memory.
#[verifier::external_body]
fn read_directory(file: &[u8]) -> (r: Option<ico::IconDir>)
    requires
        claims_fit(file@),
        frames_count(file@),
    ensures
        ico_directory(file@) is Some <==> r is Some,
        r matches Some(dir) ==> ico_directory(file@) == Some(directory_entries(dir)),
{
    ico::IconDir::read(std::io::Cursor::new(file)).ok()
}

/// `ico::IconDir::entries`: how many entries there are.
#[verifier::external_body]
fn entry_count(dir: &ico::IconDir) -> (r: usize)
    ensures
        r == directory_entries(*dir).len(),
{
    dir.entries().len()
}

/// `ico::IconDirEntry::width`, `height` and `data` of an entry.
#[verifier::external_body]
fn entry_at(dir: &ico::IconDir, i: usize) -> (r: (u32, u32, Vec<u8>))
    requires
        i < directory_entries(*dir).len(),
    ensures
        directory_entries(*dir)[i as int] == (r.0, r.1, r.2@),
{
    let entry = &dir.entries()[i];
    (entry.width(), entry.height(), entry.data().to_vec())
}

/// The image data begins with the signature of a PNG file.
pub open spec fn is_png(data: Seq<u8>) -> bool {
    data.len() >= 4 && data[0] == 0x89 && data[1] == 0x50 && data[2] == 0x4e && data[3] == 0x47
}

/// The color depth in the header of a bitmap, in bits per pixel.
pub open spec fn bitmap_depth(data: Seq<u8>) -> int {
    u16_at(data, 14)
}

/// The image is of a size that the decoder can count in: its RGBA bytes fit into memory; where it is
/// a PNG file, the positions of its pixels in bits and the number of its frames fit into `usize`; and
/// where it is a bitmap with no more pixels than the decoder takes, the length of a row in bits and
/// the position of its last row fit into 32 bits.
pub open spec fn decoder_counts(width: u32, height: u32, data: Seq<u8>) -> bool {
    let (w, h) = (width as int, height as int);
    &&& 4 * (w * h) <= isize::MAX
    &&& if is_png(data) {
        32 * (w * h) <= usize::MAX && frames_count(data)
    } else {
        ||| data.len() < 16
        ||| w * h > u32::MAX
        ||| w * bitmap_depth(data) <= u32::MAX && 4 * (w * h) - 4 * w <= u32::MAX
    }
}

/// `ico::IconDirEntry::decode` of an entry, and `rgba_data` of the image: four bytes for each
/// pixel. The decoder refuses an image that is not of the size of its entry, and an empty one.
#[verifier::external_body]
fn decode_entry(dir: &ico::IconDir, i: usize) -> (r: Option<Vec<u8>>)
    requires
        i < directory_entries(*dir).len(),
        decoder_counts(
            directory_entries(*dir)[i as int].0,
            directory_entries(*dir)[i as int].1,
            directory_entries(*dir)[i as int].2,
        ),
    ensures
        r is Some <==> ico_pixels(
            directory_entries(*dir)[i as int].0,
            directory_entries(*dir)[i as int].1,
            directory_entries(*dir)[i as int].2,
        ) is Some,
        r matches Some(rgba) ==> ico_pixels(
            directory_entries(*dir)[i as int].0,
            directory_entries(*dir)[i as int].1,
            directory_entries(*dir)[i as int].2,
        ) == Some(rgba@),
        r matches Some(rgba) ==> well_formed(
            (directory_entries(*dir)[i as int].0, directory_entries(*dir)[i as int].1, rgba@),
        ),
{
    dir.entries()[i].decode().ok().map(|image| image.rgba_data().to_vec())
}

/// A decoded image.
pub struct IconFrame {
    pub width: u32,
    pub height: u32,
    /// Four bytes for each pixel, row by row from top to bottom.
    pub rgba: Vec<u8>,
}

impl View for IconFrame {
    type V = (u32, u32, Seq<u8>);

    open spec fn view(&self) -> (u32, u32, Seq<u8>) {
        (self.width, self.height, self.rgba@)
    }
}

/// How many pixels an image has.
pub open spec fn pixels(frame: (u32, u32, Seq<u8>)) -> int {
    frame.0 * frame.1
}

/// An image with pixels, and four bytes for each of them.
pub open spec fn well_formed(frame: (u32, u32, Seq<u8>)) -> bool {
    frame.0 >= 1 && frame.1 >= 1 && frame.2.len() == 4 * pixels(frame)
}

/// The image in an entry, if it can be decoded.
pub open spec fn frame_in(entry: (u32, u32, Seq<u8>)) -> Option<(u32, u32, Seq<u8>)> {
    if decoder_counts(entry.0, entry.1, entry.2) {
        match ico_pixels(entry.0, entry.1, entry.2) {
            Some(rgba) => Some((entry.0, entry.1, rgba)),
            None => None,
        }
    } else {
        None
    }
}

/// The images in the entries that can be decoded, in order.
pub open spec fn frames_in(entries: Seq<(u32, u32, Seq<u8>)>) -> Seq<(u32, u32, Seq<u8>)>
    decreases entries.len(),
{
    if entries.len() == 0 {
        seq![]
    } else {
        let before = frames_in(entries.drop_last());
        match frame_in(entries.last()) {
            Some(frame) => before.push(frame),
            None => before,
        }
    }
}

/// Frame `i` is the largest, and the first of those of its size.
pub open spec fn is_largest(frames: Seq<(u32, u32, Seq<u8>)>, i: int) -> bool {
    &&& 0 <= i < frames.len()
    &&& forall|j: int| 0 <= j < frames.len() ==> pixels(#[trigger] frames[j]) <= pixels(frames[i])
    &&& forall|j: int| 0 <= j < i ==> pixels(#[trigger] frames[j]) < pixels(frames[i])
}

/// The images that frames stand for.
pub open spec fn frame_views(frames: Seq<IconFrame>) -> Seq<(u32, u32, Seq<u8>)> {
    frames.map_values(|f: IconFrame| f@)
}

/// Does no entry say that it has more image data than there are bytes in the file?
fn check_claims(file: &[u8]) -> (r: bool)
    ensures
        r == claims_fit(file@),
{
    if file.len() < 6 {
        return true;
    }
    let n: usize = file[4] as usize + 256 * (file[5] as usize);
    for k in 0..n
        invariant
            file.len() >= 6,
            n == u16_at(file@, 4),
            forall|j: int|
                0 <= j < k && 6 + 16 * j + 12 <= file@.len() ==> #[trigger] claimed_len(file@, j)
                    <= file@.len(),
    {
        if file.len() >= 18 && k <= (file.len() - 18) / 16 {
            let at: usize = 6 + 16 * k + 8;
            let low: u64 = file[at] as u64 + 256 * (file[at + 1] as u64);
            let high: u64 = file[at + 2] as u64 + 256 * (file[at + 3] as u64);
            assert(low + 0x1_0000 * high == claimed_len(file@, k as int));
            if low + 0x1_0000 * high > file.len() as u64 {
                return false;
            }
        }
    }
    true
}

/// Can the PNG decoder count the frames?
fn check_frame_counts(bytes: &[u8]) -> (r: bool)
    ensures
        r == frames_count(bytes@),
{
    if usize::MAX as u64 > 0xffff_ffff {
        return true;
    }
    for i in 0..bytes.len()
        invariant
            usize::MAX <= u32::MAX,
            forall|j: int| 0 <= j < i ==> !#[trigger] full_count_at(bytes@, j),
    {
        if bytes.len() - i >= 8 && bytes[i] == 0x61 && bytes[i + 1] == 0x63 && bytes[i + 2] == 0x54
            && bytes[i + 3] == 0x4c && bytes[i + 4] == 0xff && bytes[i + 5] == 0xff && bytes[i + 6]
            == 0xff && bytes[i + 7] == 0xff {
            assert(full_count_at(bytes@, i as int));
            return false;
        }
    }
    true
}

/// The number of pixels of an image.
fn pixel_count(width: u32, height: u32) -> (r: u64)
    ensures
        r == width * height,
{
    assert(0 <= width * height <= 0xffff_fffe_0000_0001) by (nonlinear_arith)
        requires
            0 <= width <= 0xffff_ffff,
            0 <= height <= 0xffff_ffff,
    ;
    width as u64 * height as u64
}

/// Is the image of a size that the decoder can count in?
fn can_decode(width: u32, height: u32, data: &Vec<u8>) -> (r: bool)
    ensures
        r == decoder_counts(width, height, data@),
{
    let count = pixel_count(width, height);
    if count > isize::MAX as u64 / 4 {
        return false;
    }
    if data.len() >= 4 && data[0] == 0x89 && data[1] == 0x50 && data[2] == 0x4e && data[3] == 0x47 {
        return count <= usize::MAX as u64 / 32 && check_frame_counts(data.as_slice());
    }
    if data.len() < 16 || count > 0xffff_ffff {
        return true;
    }
    let depth: u32 = data[14] as u32 + 256 * (data[15] as u32);
    let row_bits = pixel_count(width, depth);
    row_bits <= 0xffff_ffff && 4 * count <= 0xffff_ffff + 4 * (width as u64)
}

/// Picks the largest frame, and the first of those of its size.
pub fn largest_frame(frames: &Vec<IconFrame>) -> (r: Option<usize>)
    ensures
        r is None <==> frames@.len() == 0,
        r matches Some(i) ==> is_largest(frame_views(frames@), i as int),
{
    if frames.len() == 0 {
        return None;
    }
    let ghost views = frame_views(frames@);
    let mut best: usize = 0;
    let mut size: u64 = pixel_count(frames[0].width, frames[0].height);
    for i in 1..frames.len()
        invariant
            views == frame_views(frames@),
            best < i <= frames.len(),
            size == pixels(views[best as int]),
            forall|j: int| 0 <= j < i ==> pixels(#[trigger] views[j]) <= size,
            forall|j: int| 0 <= j < best ==> pixels(#[trigger] views[j]) < size,
    {
        let count = pixel_count(frames[i].width, frames[i].height);
        assert(count == pixels(views[i as int]));
        if count > size {
            best = i;
            size = count;
        }
    }
    Some(best)
}

/// Decodes the largest frame of an ICO file for the window (taskbar / titlebar / alt-tab); `None`
/// where the file is cut short, cannot be read, counts its frames beyond what the decoder can count,
/// or holds no frame that can be decoded.
pub fn window_icon(file: &[u8]) -> (r: Option<IconFrame>)
    ensures
        !claims_fit(file@) || !frames_count(file@) ==> r is None,
        ico_directory(file@) is None ==> r is None,
        claims_fit(file@) && frames_count(file@) ==> (ico_directory(file@) matches Some(entries) ==> {
            &&& r is None <==> frames_in(entries).len() == 0
            &&& r matches Some(frame) ==> exists|i: int| #[trigger]
                is_largest(frames_in(entries), i) && frame@ == frames_in(entries)[i]
        }),
        r matches Some(frame) ==> well_formed(frame@),
{
    if !check_claims(file) || !check_frame_counts(file) {
        return None;
    }
    let dir = match read_directory(file) {
        Some(dir) => dir,
        None => {
            return None;
        },
    };
    let ghost entries = directory_entries(dir);
    let mut frames: Vec<IconFrame> = Vec::new();
    let n = entry_count(&dir);
    assert(entries.take(0) =~= Seq::<(u32, u32, Seq<u8>)>::empty());
    assert(frame_views(frames@) =~= frames_in(entries.take(0)));
    for i in 0..n
        invariant
            entries == directory_entries(dir),
            n == entries.len(),
            frame_views(frames@) == frames_in(entries.take(i as int)),
            forall|j: int| 0 <= j < frames@.len() ==> well_formed((#[trigger] frames@[j])@),
    {
        assert(entries.take(i + 1).drop_last() =~= entries.take(i as int));
        let ghost before = frames@;
        let (width, height, data) = entry_at(&dir, i);
        if can_decode(width, height, &data) {
            if let Some(rgba) = decode_entry(&dir, i) {
                frames.push(IconFrame { width, height, rgba });
                assert(frame_views(frames@) =~= frame_views(before).push((width, height, rgba@)));
            }
        }
    }
    assert(entries.take(n as int) =~= entries);
    match largest_frame(&frames) {
        Some(i) => {
            assert(frame_views(frames@)[i as int] == frames@[i as int]@);
            assert(is_largest(frames_in(entries), i as int));
            Some(frames.swap_remove(i))
        },
        None => None,
    }
}

/// The number in bytes, the low one first.
pub open spec fn little_endian(bytes: Seq<u8>) -> int
    decreases bytes.len(),
{
    if bytes.len() == 0 {
        0
    } else {
        bytes[0] + 256 * little_endian(bytes.skip(1))
    }
}

proof fn lemma_little_endian(bytes: Seq<u8>)
    requires
        bytes.len() == 2 || bytes.len() == 4,
    ensures
        bytes.len() == 2 ==> little_endian(bytes) == u16_at(bytes, 0),
        bytes.len() == 4 ==> little_endian(bytes) == u32_at(bytes, 0),
{
    reveal_with_fuel(little_endian, 5);
}

/// One of the entries that the file says it has gives its image a length beyond that of the file.
/// Entry `k` takes 16 bytes, and the length is the number in four of them.
pub open spec fn claims_too_much(file: Seq<u8>, k: int) -> bool {
    &&& 0 <= k < little_endian(file.subrange(4, 6))
    &&& 6 + 16 * k + 12 <= file.len()
    &&& little_endian(file.subrange(6 + 16 * k + 8, 6 + 16 * k + 12)) > file.len()
}

/// A file is refused for its lengths if and only if one of its entries claims too much.
pub proof fn refused_file_claims_too_much(file: Seq<u8>)
    ensures
        claims_fit(file) <==> file.len() < 6 || forall|k: int| !#[trigger] claims_too_much(file, k),
{
    if file.len() >= 6 {
        lemma_little_endian(file.subrange(4, 6));
        assert forall|k: int| 0 <= k && 6 + 16 * k + 12 <= file.len() implies #[trigger] claimed_len(
            file,
            k,
        ) == little_endian(file.subrange(6 + 16 * k + 8, 6 + 16 * k + 12)) by {
            lemma_little_endian(file.subrange(6 + 16 * k + 8, 6 + 16 * k + 12));
        }
        if claims_fit(file) {
            assert forall|k: int| !#[trigger] claims_too_much(file, k) by {
                if claims_too_much(file, k) {
                    assert(claimed_len(file, k) <= file.len());
                }
            }
        }
        if forall|k: int| !#[trigger] claims_too_much(file, k) {
            assert forall|k: int|
                0 <= k < u16_at(file, 4) && 6 + 16 * k + 12 <= file.len() implies
                #[trigger] claimed_len(file, k) <= file.len() by {
                assert(!claims_too_much(file, k));
            }
        }
    }
}

/// Frames are always counted where `usize` is wider than 32 bits; where it is not, all is well
/// unless the bytes `acTL` stand somewhere with the number of all ones behind them.
pub proof fn frames_are_counted(bytes: Seq<u8>)
    ensures
        usize::MAX > u32::MAX ==> frames_count(bytes),
        usize::MAX <= u32::MAX ==> (frames_count(bytes) <==> forall|i: int|
            0 <= i && i + 8 <= bytes.len() ==> #[trigger] bytes.subrange(i, i + 8)
                != seq![0x61u8, 0x63, 0x54, 0x4c, 0xff, 0xff, 0xff, 0xff]),
{
    let mark = seq![0x61u8, 0x63, 0x54, 0x4c, 0xff, 0xff, 0xff, 0xff];
    assert forall|i: int| 0 <= i && i + 8 <= bytes.len() implies (#[trigger] bytes.subrange(i, i + 8)
        == mark) == full_count_at(bytes, i) by {
        let part = bytes.subrange(i, i + 8);
        assert(part[0] == bytes[i] && part[1] == bytes[i + 1] && part[2] == bytes[i + 2] && part[3]
            == bytes[i + 3] && part[4] == bytes[i + 4] && part[5] == bytes[i + 5] && part[6]
            == bytes[i + 6] && part[7] == bytes[i + 7]);
        if full_count_at(bytes, i) {
            assert(part =~= mark);
        }
    }
    if forall|i: int|
        0 <= i && i + 8 <= bytes.len() ==> #[trigger] bytes.subrange(i, i + 8) != mark {
        assert forall|i: int| !#[trigger] full_count_at(bytes, i) by {
            if 0 <= i && i + 8 <= bytes.len() {
                assert(bytes.subrange(i, i + 8) != mark);
            }
        }
    }
    if forall|i: int| !#[trigger] full_count_at(bytes, i) {
        assert forall|i: int| 0 <= i && i + 8 <= bytes.len() implies #[trigger] bytes.subrange(
            i,
            i + 8,
        ) != mark by {
            assert(!full_count_at(bytes, i));
        }
    }
}

/// The image data of a PNG file begins with its signature.
pub open spec fn signed_png(data: Seq<u8>) -> bool {
    data.len() >= 4 && data.take(4) == seq![0x89u8, 0x50, 0x4e, 0x47]
}

/// What a decoder makes of an entry counts as a frame, with the size of the entry, if the image is of
/// ordinary size: no wider than 65535 pixels, and with 64 Mi pixels at most. Where `usize` has 64
/// bits, a PNG file of any size counts whose pixels can be numbered in bits.
pub proof fn decoded_image_is_a_frame(width: u32, height: u32, data: Seq<u8>)
    requires
        ({
            ||| width <= 0xffff && width * height <= 0x400_0000 && (signed_png(data)
                ==> frames_count(data))
            ||| usize::MAX > u32::MAX && signed_png(data) && 4 * (width * height) <= isize::MAX
                && 32 * (width * height) <= usize::MAX
        }),
    ensures
        ico_pixels(width, height, data) is None ==> frame_in((width, height, data)) is None,
        ico_pixels(width, height, data) is Some ==> frame_in((width, height, data)) == Some(
            (width, height, ico_pixels(width, height, data)->Some_0),
        ),
{
    lemma_signature(data);
    frames_are_counted(data);
    if data.len() >= 16 {
        let depth = bitmap_depth(data);
        assert(width <= 0xffff ==> width * depth <= 0xffff * 0xffff) by (nonlinear_arith)
            requires
                0 <= width,
                0 <= depth <= 0xffff,
        ;
    }
}

proof fn lemma_signature(data: Seq<u8>)
    ensures
        signed_png(data) == is_png(data),
{
    if data.len() >= 4 {
        let head = data.take(4);
        assert(head[0] == data[0] && head[1] == data[1] && head[2] == data[2] && head[3]
            == data[3]);
        if is_png(data) {
            assert(head =~= seq![0x89u8, 0x50, 0x4e, 0x47]);
        }
    }
}

/// An image that the decoder makes is passed over only where one of its counts would not fit: the
/// bytes of its pixels in memory; the bits of its pixels or the frames of a PNG file; or, of a bitmap,
/// the bits of a row or the place of the last row in 32 bits.
pub proof fn passed_over_image_is_too_large(width: u32, height: u32, data: Seq<u8>)
    requires
        ico_pixels(width, height, data) is Some,
        frame_in((width, height, data)) is None,
    ensures
        ({
            ||| 4 * (width * height) > isize::MAX
            ||| signed_png(data) && (32 * (width * height) > usize::MAX || !frames_count(data))
            ||| !signed_png(data) && data.len() >= 16 && width * height <= u32::MAX && (width
                * little_endian(data.subrange(14, 16)) > u32::MAX || 4 * (width * height) - 4
                * width > u32::MAX)
        }),
{
    lemma_signature(data);
    if data.len() >= 16 {
        lemma_little_endian(data.subrange(14, 16));
    }
}

/// The frames of a file are those of its entries, in their order.
pub proof fn frames_add_up(a: Seq<(u32, u32, Seq<u8>)>, b: Seq<(u32, u32, Seq<u8>)>)
    ensures
        frames_in(a + b) == frames_in(a) + frames_in(b),
    decreases b.len(),
{
    if b.len() == 0 {
        assert(a + b =~= a);
        assert(frames_in(a) + frames_in(b) =~= frames_in(a));
    } else {
        frames_add_up(a, b.drop_last());
        assert((a + b).drop_last() =~= a + b.drop_last());
        assert(frames_in(a + b) =~= frames_in(a) + frames_in(b));
    }
}

/// An entry gives the frame that is in it, or none.
pub proof fn entry_gives_its_frame(entry: (u32, u32, Seq<u8>))
    ensures
        frames_in(seq![]) == Seq::<(u32, u32, Seq<u8>)>::empty(),
        frame_in(entry) is None ==> frames_in(seq![entry]).len() == 0,
        frame_in(entry) is Some ==> frames_in(seq![entry]) == seq![frame_in(entry)->Some_0],
{
    let entries = seq![entry];
    assert(entries.drop_last() =~= Seq::<(u32, u32, Seq<u8>)>::empty());
    assert(frames_in(Seq::<(u32, u32, Seq<u8>)>::empty()) =~= Seq::<
        (u32, u32, Seq<u8>),
    >::empty());
    if let Some(frame) = frame_in(entry) {
        assert(frames_in(entries) =~= seq![frame]);
    }
}

/// Every frame is what the decoder made of an entry, and has the size of that entry.
pub proof fn frame_comes_from_an_entry(entries: Seq<(u32, u32, Seq<u8>)>, i: int)
    requires
        0 <= i < frames_in(entries).len(),
    ensures
        exists|k: int|
            0 <= k < entries.len() && (#[trigger] entries[k]).0 == frames_in(entries)[i].0
                && entries[k].1 == frames_in(entries)[i].1 && ico_pixels(
                entries[k].0,
                entries[k].1,
                entries[k].2,
            ) == Some(frames_in(entries)[i].2),
    decreases entries.len(),
{
    let init = entries.drop_last();
    let n = init.len() as int;
    if i < frames_in(init).len() {
        frame_comes_from_an_entry(init, i);
        let k = choose|k: int|
            0 <= k < init.len() && (#[trigger] init[k]).0 == frames_in(init)[i].0 && init[k].1
                == frames_in(init)[i].1 && ico_pixels(init[k].0, init[k].1, init[k].2) == Some(
                frames_in(init)[i].2,
            );
        assert(entries[k] == init[k]);
    } else {
        assert(entries[n] == entries.last());
    }
}

/// The frame that is taken has as many pixels as any, and more than those before it: no image of
/// ordinary size that can be decoded is larger.
pub proof fn no_decoded_image_is_larger(entries: Seq<(u32, u32, Seq<u8>)>, i: int, k: int)
    requires
        is_largest(frames_in(entries), i),
        0 <= k < entries.len(),
        entries[k].0 <= 0xffff,
        entries[k].0 * entries[k].1 <= 0x400_0000,
        signed_png(entries[k].2) ==> frames_count(entries[k].2),
        ico_pixels(entries[k].0, entries[k].1, entries[k].2) is Some,
    ensures
        0 <= i < frames_in(entries).len(),
        frames_in(entries)[i].0 * frames_in(entries)[i].1 >= entries[k].0 * entries[k].1,
{
    let entry = entries[k];
    let rgba = ico_pixels(entry.0, entry.1, entry.2)->Some_0;
    decoded_image_is_a_frame(entry.0, entry.1, entry.2);
    let frame = (entry.0, entry.1, rgba);
    assert(frame_in((entry.0, entry.1, entry.2)) == Some(frame));
    assert(entry == (entry.0, entry.1, entry.2));
    let head = entries.take(k);
    let tail = entries.skip(k + 1);
    assert(entries =~= head + seq![entry] + tail);
    frames_add_up(head + seq![entry], tail);
    frames_add_up(head, seq![entry]);
    entry_gives_its_frame(entry);
    let j = frames_in(head).len() as int;
    assert(frames_in(entries)[j] == frame);
}

/// The frame that is taken is the largest by width times height, and the first of that size. No two
/// frames are both.
pub proof fn one_frame_is_taken(frames: Seq<(u32, u32, Seq<u8>)>, i: int, j: int)
    requires
        0 <= i < frames.len(),
        0 <= j < frames.len(),
    ensures
        is_largest(frames, i) ==> frames[j].0 * frames[j].1 <= frames[i].0 * frames[i].1,
        is_largest(frames, i) && j < i ==> frames[j].0 * frames[j].1 < frames[i].0 * frames[i].1,
        is_largest(frames, i) && is_largest(frames, j) ==> i == j,
        (forall|k: int|
            0 <= k < frames.len() ==> (#[trigger] frames[k]).0 * frames[k].1 <= frames[i].0
                * frames[i].1 && (k < i ==> frames[k].0 * frames[k].1 < frames[i].0 * frames[i].1))
            ==> is_largest(frames, i),
{
    assert(pixels(frames[i]) == frames[i].0 * frames[i].1);
    assert(pixels(frames[j]) == frames[j].0 * frames[j].1);
}

} // verus!
