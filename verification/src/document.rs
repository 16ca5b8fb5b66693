//! The output document model: the envelope and bookkeeping records handed to
//! the external document sink, and the generator that stamps shapes with
//! fresh ids and fractional indexes.

use vstd::prelude::*;
use vstd::string::*;

use rand::Rng;

use crate::connector::{ArrowRecord, ShapeRecord};

verus! {

/// The base-36 digit characters `0`..`9` then `a`..`z`.
pub open spec fn digit36(d: int) -> char {
    if 0 <= d < 10 {
        ((48 + d) as u8) as char
    } else if 10 <= d < 36 {
        ((87 + d) as u8) as char
    } else {
        ' '
    }
}

fn digit36_exec(d: usize) -> (c: char)
    requires
        d < 36,
    ensures
        c == digit36(d as int),
{
    if d < 10 {
        (48 + d as u8) as char
    } else {
        (87 + d as u8) as char
    }
}

/// Relies on `String: FromIterator<char>`: collecting characters yields the
/// string of exactly those characters, in order.
#[verifier::external_body]
fn string_from_chars(chars: &Vec<char>) -> (r: String)
    ensures
        r@ == chars@,
{
    chars.iter().collect()
}

/// Relies on `rand::Rng::random_range` over `0..n`: a value below `n`
/// (chosen by the thread-local generator, so nothing more is promised).
/// The call panics only on an empty range, which `0 < n` rules out.
#[verifier::external_body]
fn rand_below(n: usize) -> (r: usize)
    requires
        0 < n,
    ensures
        r < n,
{
    rand::rng().random_range(0..n)
}

/// Relies on `std::time::SystemTime::now` and `duration_since`: the wall
/// clock's milliseconds since the Unix epoch. The result depends on the
/// clock, so nothing is promised of it; a clock before the epoch reads as
/// zero rather than failing.
#[verifier::external_body]
pub fn updated_timestamp() -> (ms: u128) {
    match std::time::SystemTime::now().duration_since(std::time::UNIX_EPOCH) {
        Ok(d) => d.as_millis(),
        Err(_) => 0,
    }
}

/// The fractional-index code for a slot: a `b` followed by the slot number
/// in two base-36 digits.
pub fn generate_index(index: usize) -> (r: String)
    requires
        index < 36 * 36,
    ensures
        r@ == seq!['b', digit36(index as int / 36), digit36(index as int % 36)],
{
    let hi = index / 36;
    let lo = index % 36;
    let chars: Vec<char> = vec!['b', digit36_exec(hi), digit36_exec(lo)];
    proof {
        assert(chars@ =~= seq!['b', digit36(index as int / 36), digit36(index as int % 36)]);
    }
    string_from_chars(&chars)
}

/// A character allowed in an element id: a letter, a digit, `-` or `_`.
pub open spec fn id_char(c: char) -> bool {
    ('A' <= c && c <= 'Z') || ('a' <= c && c <= 'z') || ('0' <= c && c <= '9') || c == '-' || c
        == '_'
}

/// The 64-character id alphabet, in order: the upper-case letters, the
/// lower-case letters, the digits, then `-` and `_`.
pub open spec fn id_charset(i: int) -> char {
    if 0 <= i < 26 {
        ((65 + i) as u8) as char
    } else if 26 <= i < 52 {
        ((97 + (i - 26)) as u8) as char
    } else if 52 <= i < 62 {
        ((48 + (i - 52)) as u8) as char
    } else if i == 62 {
        '-'
    } else {
        '_'
    }
}

fn charset_char(i: usize) -> (c: char)
    requires
        i < 64,
    ensures
        c == id_charset(i as int),
        id_char(c),
{
    if i < 26 {
        (65 + i as u8) as char
    } else if i < 52 {
        (97 + (i - 26) as u8) as char
    } else if i < 62 {
        (48 + (i - 52) as u8) as char
    } else if i == 62 {
        '-'
    } else {
        '_'
    }
}

/// A fresh 22-character element id over letters, digits, `-` and `_`. The
/// characters are drawn through `rand_below`, so only the shape of the id is
/// promised, never its value.
pub fn rand_element_id() -> (r: String)
    ensures
        r@.len() == 22,
        forall|i: int| 0 <= i < r@.len() ==> id_char(#[trigger] r@[i]),
{
    let mut chars: Vec<char> = Vec::new();
    let mut k: usize = 0;
    while k < 22
        invariant
            k <= 22,
            chars@.len() == k,
            forall|i: int| 0 <= i < k ==> id_char(#[trigger] chars@[i]),
        decreases 22 - k,
    {
        let idx = rand_below(64);
        chars.push(charset_char(idx));
        k = k + 1;
    }
    string_from_chars(&chars)
}

/// Produces shape records with increasing fractional indexes; their ids come
/// from `rand_element_id`. Injected wherever shapes are created, so that the
/// pipeline's only sources of freshness sit in one place.
#[derive(Debug, Clone, PartialEq)]
pub struct Generator {
    pub index: usize,
}

impl Default for Generator {
    /// A generator whose first shape takes slot 1.
    fn default() -> (g: Generator)
        ensures
            g.index == 0,
    {
        Generator { index: 0 }
    }
}

impl Generator {
    /// A zero-sized rectangle record at (x, y) bearing the next index.
    pub fn small_rectangle(&mut self, x: i64, y: i64) -> (r: ShapeRecord)
        requires
            old(self).index + 1 < 36 * 36,
        ensures
            final(self).index == old(self).index + 1,
            r.x == x && r.y == y && r.width == 0 && r.height == 0,
            r.index@ == seq![
                'b',
                digit36((old(self).index + 1) / 36),
                digit36((old(self).index + 1) % 36),
            ],
            r.id@.len() == 22,
            forall|i: int| 0 <= i < r.id@.len() ==> id_char(#[trigger] r.id@[i]),
            r.bound_element_ids@.len() == 0,
    {
        self.index = self.index + 1;
        ShapeRecord {
            id: rand_element_id(),
            x,
            y,
            width: 0,
            height: 0,
            index: generate_index(self.index),
            bound_element_ids: Vec::new(),
        }
    }

    /// A 100-by-100 rectangle record at (x, y) bearing the next index.
    pub fn big_rectangle(&mut self, x: i64, y: i64) -> (r: ShapeRecord)
        requires
            old(self).index + 1 < 36 * 36,
        ensures
            final(self).index == old(self).index + 1,
            r.x == x && r.y == y && r.width == 100 && r.height == 100,
            r.index@ == seq![
                'b',
                digit36((old(self).index + 1) / 36),
                digit36((old(self).index + 1) % 36),
            ],
            r.id@.len() == 22,
            forall|i: int| 0 <= i < r.id@.len() ==> id_char(#[trigger] r.id@[i]),
            r.bound_element_ids@.len() == 0,
    {
        self.index = self.index + 1;
        ShapeRecord {
            id: rand_element_id(),
            x,
            y,
            width: 100,
            height: 100,
            index: generate_index(self.index),
            bound_element_ids: Vec::new(),
        }
    }
}

/// The document's attached-files table (always empty here).
#[derive(Debug, Clone, PartialEq)]
pub struct Files {}

/// Corner roundness marker of a drawn box.
#[derive(Debug, Clone, PartialEq)]
pub struct Roundness {
    pub roundness_type: u8,
}

/// Marker for the editor's locked multi-selections (always empty here).
#[derive(Debug, Clone, PartialEq)]
pub struct LockedMultiSelections {}

/// The editor-state block of the output document.
#[derive(Debug, Clone, PartialEq)]
pub struct AppState {
    grid_size: usize,
    grid_step: usize,
    grid_mode_enabled: bool,
    view_background_color: String,
    locked_multi_selections: LockedMultiSelections,
}

impl AppState {
    /// The stock editor state: a 20-unit grid in 5 steps, grid off, white
    /// background.
    pub closed spec fn is_stock(&self) -> bool {
        &&& self.grid_size == 20
        &&& self.grid_step == 5
        &&& !self.grid_mode_enabled
        &&& self.view_background_color@ == "#ffffff"@
    }
}

impl Default for AppState {
    /// The stock editor state.
    fn default() -> (a: AppState)
        ensures
            a.is_stock(),
    {
        AppState {
            grid_size: 20,
            grid_step: 5,
            grid_mode_enabled: false,
            view_background_color: String::from_str("#ffffff"),
            locked_multi_selections: LockedMultiSelections {  },
        }
    }
}

/// One drawable element of the output document.
#[derive(Debug, Clone, PartialEq)]
pub enum Element {
    Rectangle(ShapeRecord),
    Arrow(ArrowRecord),
}

/// The output document envelope handed to the external sink.
#[derive(Debug, Clone, PartialEq)]
pub struct ExcalidrawFile {
    pub kind: String,
    pub version: u32,
    pub source: String,
    pub elements: Vec<Element>,
    pub app_state: AppState,
    pub files: Files,
}

impl Default for ExcalidrawFile {
    /// An empty document envelope.
    fn default() -> (f: ExcalidrawFile)
        ensures
            f.kind@ == "excalidraw"@,
            f.version == 2,
            f.source@ == "https://excalidraw.com"@,
            f.elements@.len() == 0,
            f.app_state.is_stock(),
    {
        ExcalidrawFile {
            kind: String::from_str("excalidraw"),
            version: 2,
            source: String::from_str("https://excalidraw.com"),
            elements: Vec::new(),
            app_state: AppState::default(),
            files: Files {  },
        }
    }
}

impl ExcalidrawFile {
    /// A document with the given source label and elements, everything else
    /// as in the empty envelope.
    pub fn new(source: String, elements: Vec<Element>) -> (f: ExcalidrawFile)
        ensures
            f.source == source,
            f.elements == elements,
            f.kind@ == "excalidraw"@,
            f.version == 2,
            f.app_state.is_stock(),
    {
        let base = ExcalidrawFile::default();
        ExcalidrawFile { source, elements, ..base }
    }
}

/// Wrap the elements in a default document envelope.
pub fn simple_drawing(elements: Vec<Element>) -> (f: ExcalidrawFile)
    ensures
        f.elements == elements,
        f.kind@ == "excalidraw"@,
        f.version == 2,
        f.source@ == "https://excalidraw.com"@,
        f.app_state.is_stock(),
{
    let base = ExcalidrawFile::default();
    ExcalidrawFile { elements, ..base }
}

} // verus!
