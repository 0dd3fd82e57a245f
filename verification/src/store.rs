//! Saving the map: one file per leaf, `./<id>.chunk.gz`, holding the colours
//! of the leaf's grid, encoded by bincode and compressed by zlib at its fast
//! level. The library computes the files; writing them is left to the caller.
use vstd::prelude::*;

use crate::chunk::{children_view, lemma_children_view, view_chunk, Chunk, ChunkView, grid_view};
use crate::pixel::Pixel;
use crate::text::push_char;

verus! {

#[verifier::external_type_specification]
#[verifier::external_body]
pub struct ExIoError(std::io::Error);

#[verifier::external_type_specification]
#[verifier::external_body]
pub struct ExBincodeErrorKind(bincode::ErrorKind);

/// Why a leaf could not be saved.
#[derive(Debug)]
pub enum SaveError {
    Io(std::io::Error),
    Bincode(Box<bincode::ErrorKind>),
}

/// A file to write: its path and its contents.
pub struct SaveFile {
    pub path: String,
    pub data: Vec<u8>,
}

// ---------------------------------------------------------------------------
// The bytes of a leaf
// ---------------------------------------------------------------------------

/// The `k` low bytes of `n`, least significant first.
pub open spec fn le_bytes(n: nat, k: nat) -> Seq<u8>
    decreases k,
{
    if k == 0 {
        Seq::empty()
    } else {
        seq![(n % 256) as u8] + le_bytes(n / 256, (k - 1) as nat)
    }
}

/// A sequence length as bincode writes it with its fixed-width integers: eight
/// bytes, little-endian.
pub open spec fn length_bytes(n: nat) -> Seq<u8> {
    le_bytes(n, 8)
}

/// bincode's encoding of a sequence of `i8`: its length, then one byte per value.
pub open spec fn row_bytes(row: Seq<i8>) -> Seq<u8> {
    length_bytes(row.len()) + row.map_values(|v: i8| v as u8)
}

/// The encodings of the rows, one after the other.
pub open spec fn rows_bytes(rows: Seq<Seq<i8>>) -> Seq<u8>
    decreases rows.len(),
{
    if rows.len() == 0 {
        Seq::empty()
    } else {
        rows_bytes(rows.drop_last()) + row_bytes(rows.last())
    }
}

/// bincode's encoding (fixed-width integers, little-endian) of a vector of
/// vectors of `i8`: the number of rows, then each row.
pub open spec fn bincode_rows(rows: Seq<Seq<i8>>) -> Seq<u8> {
    length_bytes(rows.len()) + rows_bytes(rows)
}

/// The colours of a grid, row by row. A pixel is encoded as its colour alone.
pub open spec fn color_rows(grid: Seq<Seq<Pixel>>) -> Seq<Seq<i8>> {
    grid.map_values(|row: Seq<Pixel>| row.map_values(|p: Pixel| p.color))
}

#[verifier::external_body]
/// `bincode::serialize` on a vector of vectors of `i8`. Its configuration uses
/// fixed-width little-endian integers and no size limit, a vector always has a
/// length, and writing into a vector cannot fail: the contract claims success,
/// with the bytes `bincode_rows`.
fn bincode_serialize_rows(rows: &Vec<Vec<i8>>) -> (r: Result<Vec<u8>, Box<bincode::ErrorKind>>)
    ensures
        r is Ok,
        r matches Ok(bytes) ==> bytes@ == bincode_rows(rows@.map_values(|row: Vec<i8>| row@)),
{
    bincode::serialize(rows)
}

/// What zlib (flate2's `ZlibEncoder` at `Compression::fast()`) makes of `data`.
pub uninterp spec fn zlib_fast(data: Seq<u8>) -> Seq<u8>;

#[verifier::external_body]
/// Compresses `data` with flate2's `ZlibEncoder` at `Compression::fast()`
/// into a vector. The level is valid and no dictionary is asked for, and
/// writing into a vector cannot fail, so compression succeeds; the bytes are a
/// function of `data` alone, named `zlib_fast(data)`.
fn zlib_compress_fast(data: &[u8]) -> (r: Result<Vec<u8>, std::io::Error>)
    ensures
        r is Ok,
        r matches Ok(out) ==> out@ == zlib_fast(data@),
{
    let mut encoder = flate2::write::ZlibEncoder::new(Vec::new(), flate2::Compression::fast());
    std::io::Write::write_all(&mut encoder, data)?;
    encoder.finish()
}

/// The colours of `pixels`, row by row.
pub fn leaf_colors(pixels: &Vec<Vec<Pixel>>) -> (rows: Vec<Vec<i8>>)
    ensures
        rows@.map_values(|row: Vec<i8>| row@) == color_rows(grid_view(pixels@)),
{
    let mut rows: Vec<Vec<i8>> = Vec::new();
    for x in 0..pixels.len()
        invariant
            rows@.len() == x,
            forall|i: int| 0 <= i < x ==> #[trigger] rows@[i]@ == pixels@[i]@.map_values(|p: Pixel| p.color),
    {
        let mut row: Vec<i8> = Vec::new();
        let src = &pixels[x];
        for y in 0..src.len()
            invariant
                row@ == src@.take(y as int).map_values(|p: Pixel| p.color),
        {
            row.push(src[y].color);
            assert(row@ =~= src@.take(y + 1).map_values(|p: Pixel| p.color));
        }
        assert(src@.take(src@.len() as int) =~= src@);
        rows.push(row);
    }
    assert(rows@.map_values(|row: Vec<i8>| row@) =~= color_rows(grid_view(pixels@)));
    rows
}

/// The bincode encoding of the colours of `pixels`.
pub fn encode_colors(pixels: &Vec<Vec<Pixel>>) -> (r: Result<Vec<u8>, SaveError>)
    ensures
        r is Ok,
        r matches Ok(bytes) ==> bytes@ == bincode_rows(color_rows(grid_view(pixels@))),
{
    let rows = leaf_colors(pixels);
    match bincode_serialize_rows(&rows) {
        Ok(bytes) => Ok(bytes),
        Err(e) => Err(SaveError::Bincode(e)),
    }
}

/// The path of the file of the leaf `id`: `./<id>.chunk.gz`.
pub open spec fn save_path_text(id: Seq<char>) -> Seq<char> {
    seq!['.', '/'] + id + seq!['.', 'c', 'h', 'u', 'n', 'k', '.', 'g', 'z']
}

/// The path of the file of the leaf `id`.
pub fn save_path(id: &str) -> (p: String)
    ensures
        p@ == save_path_text(id@),
{
    let mut p = String::new();
    push_char(&mut p, '.');
    push_char(&mut p, '/');
    p.append(id);
    push_char(&mut p, '.');
    push_char(&mut p, 'c');
    push_char(&mut p, 'h');
    push_char(&mut p, 'u');
    push_char(&mut p, 'n');
    push_char(&mut p, 'k');
    push_char(&mut p, '.');
    push_char(&mut p, 'g');
    push_char(&mut p, 'z');
    assert(p@ =~= save_path_text(id@));
    p
}

// ---------------------------------------------------------------------------
// The files of a map
// ---------------------------------------------------------------------------

/// The leaves of the map, depth first, children in order.
pub open spec fn leaves(v: ChunkView) -> Seq<ChunkView>
    decreases v, 0int,
{
    match v {
        ChunkView::Leaf { .. } => seq![v],
        ChunkView::Container { children, .. } => leaves_of(children, children.len() as int),
    }
}

/// The leaves under the first `n` chunks of `cs`.
pub open spec fn leaves_of(cs: Seq<ChunkView>, n: int) -> Seq<ChunkView>
    decreases cs, n,
{
    if n <= 0 || n > cs.len() {
        Seq::empty()
    } else {
        leaves_of(cs, n - 1) + leaves(cs[n - 1])
    }
}

/// The file of a leaf: its path and the compressed encoding of its colours.
pub open spec fn leaf_file(l: ChunkView) -> (Seq<char>, Seq<u8>) {
    match l {
        ChunkView::Leaf { id, pixels, .. } => (
            save_path_text(id),
            zlib_fast(bincode_rows(color_rows(pixels))),
        ),
        ChunkView::Container { id, .. } => (id, Seq::empty()),
    }
}

/// The path and the contents of each file.
pub open spec fn files_view(fs: Seq<SaveFile>) -> Seq<(Seq<char>, Seq<u8>)> {
    fs.map_values(|f: SaveFile| (f.path@, f.data@))
}

impl Chunk {
    /// The files that save the map: one per leaf, depth first, as `leaf_file`
    /// says. Encoding and compressing a leaf cannot fail, so this succeeds.
    #[verifier::loop_isolation(false)]
    pub fn save_files(&self) -> (r: Result<Vec<SaveFile>, SaveError>)
        ensures
            r matches Ok(fs) ==> files_view(fs@) == leaves(self@).map_values(
                |l: ChunkView| leaf_file(l),
            ),
            r is Ok,
        decreases self,
    {
        match self {
            Chunk::Container { id: _, childrens } => {
                let ghost cv = children_view(childrens@);
                proof {
                    lemma_children_view(childrens@);
                }
                let mut files: Vec<SaveFile> = Vec::new();
                let n = childrens.len();
                let mut i: usize = 0;
                while i < n
                    invariant
                        0 <= i <= n,
                        n == childrens.len(),
                        files_view(files@) == leaves_of(cv, i as int).map_values(
                            |l: ChunkView| leaf_file(l),
                        ),
                    decreases n - i,
                {
                    proof {
                        assert(decreases_to!(self => childrens@[i as int]));
                        assert(cv[i as int] == view_chunk(childrens@[i as int]));
                    }
                    let mut more = match childrens[i].save_files() {
                        Ok(fs) => fs,
                        Err(e) => {
                            return Err(e);
                        },
                    };
                    let ghost before = files@;
                    let ghost added = more@;
                    files.append(&mut more);
                    proof {
                        assert(cv[i as int] == view_chunk(childrens@[i as int]));
                        assert(files_view(files@) =~= files_view(before) + files_view(added));
                        assert(leaves_of(cv, i + 1) == leaves_of(cv, i as int) + leaves(cv[i as int]));
                        assert(leaves_of(cv, i + 1).map_values(|l: ChunkView| leaf_file(l))
                            =~= leaves_of(cv, i as int).map_values(|l: ChunkView| leaf_file(l))
                            + leaves(cv[i as int]).map_values(|l: ChunkView| leaf_file(l)));
                    }
                    i = i + 1;
                }
                Ok(files)
            },
            Chunk::Leaf { id, sessions: _, pixels } => {
                let bytes = encode_colors(pixels)?;
                let data = match zlib_compress_fast(bytes.as_slice()) {
                    Ok(d) => d,
                    Err(e) => {
                        return Err(SaveError::Io(e));
                    },
                };
                let path = save_path(id.as_str());
                let mut files: Vec<SaveFile> = Vec::new();
                files.push(SaveFile { path, data });
                proof {
                    assert(files_view(files@) =~= leaves(self@).map_values(|l: ChunkView| leaf_file(l)));
                    assert(leaves(self@)[0] == self@);
                }
                Ok(files)
            },
        }
    }
}

} // verus!
