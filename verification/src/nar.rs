//! The archive codec: a filesystem subtree written as a canonical stream of
//! length-prefixed, zero-padded byte strings.
//!
//! The contents of regular files are never held in memory. A tree records for
//! each file only its length and where its bytes are found; the archive is
//! produced as a sequence of chunks, each either literal bytes or the place
//! where a file's contents go.

use vstd::prelude::*;
use vstd::string::StringSliceAdditionalSpecFns;

verus! {

/// First token of every archive.
pub const NAR_VERSION_MAGIC_1: &'static str = "nix-archive-1";

/// Marker that a case-insensitive filesystem appends to a name that differs
/// from a sibling only by case.
pub const CASE_HACK_SUFFIX: &'static str = "~nix~case~hack~";

/// Number of zero bytes that pad a string of `len` bytes to a multiple of eight.
pub open spec fn padding_len(len: nat) -> nat {
    ((8 - len % 8) % 8) as nat
}

/// The zero bytes that follow a string of `len` bytes.
pub open spec fn padding(len: nat) -> Seq<u8> {
    Seq::new(padding_len(len), |i: int| 0u8)
}

/// The first `count` bytes of `n` written least significant byte first.
pub open spec fn le_bytes_of(n: nat, count: nat) -> Seq<u8>
    decreases count,
{
    if count == 0 {
        Seq::empty()
    } else {
        seq![(n % 256) as u8] + le_bytes_of(n / 256, (count - 1) as nat)
    }
}

/// A length as it is written in the archive: eight bytes, little endian.
pub open spec fn le_bytes(n: u64) -> Seq<u8> {
    le_bytes_of(n as nat, 8)
}

/// One byte string as it is written in the archive: its length, its bytes,
/// and zero bytes up to the next multiple of eight.
pub open spec fn unit(s: Seq<u8>) -> Seq<u8> {
    le_bytes(s.len() as u64) + s + padding(s.len())
}

/// A structural token as it is written in the archive.
pub open spec fn token(t: &str) -> Seq<u8> {
    unit(t.spec_bytes())
}

/// A length is written as eight bytes.
pub proof fn lemma_le_bytes_len(n: u64)
    ensures
        le_bytes(n).len() == 8,
{
    reveal_with_fuel(le_bytes_of, 9);
}

/// A string and its padding together are a multiple of eight bytes long.
pub proof fn lemma_padding_aligns(len: nat)
    ensures
        padding_len(len) < 8,
        (len + padding_len(len)) % 8 == 0,
{
}

/// The layout of one byte string in the archive: eight bytes of length, the
/// bytes themselves, then exactly `(8 - L mod 8) mod 8` zero bytes, which
/// brings the whole to a multiple of eight.
pub proof fn lemma_unit_layout(s: Seq<u8>)
    ensures
        padding_len(s.len()) == (8 - s.len() % 8) % 8,
        unit(s).len() == 8 + s.len() + padding_len(s.len()),
        unit(s).len() % 8 == 0,
        unit(s).subrange(0, 8) == le_bytes(s.len() as u64),
        unit(s).subrange(8, 8 + s.len() as int) == s,
        forall|i: int| 8 + s.len() <= i < unit(s).len() ==> unit(s)[i] == 0,
{
    let length = le_bytes(s.len() as u64);
    let zeros = padding(s.len());
    lemma_le_bytes_len(s.len() as u64);
    lemma_padding_aligns(s.len());
    assert(unit(s) == length + s + zeros);
    assert(zeros.len() == padding_len(s.len()));
    assert((length + s + zeros).subrange(0, 8) =~= length);
    assert((length + s + zeros).subrange(8, 8 + s.len() as int) =~= s);
    assert forall|i: int| 8 + s.len() <= i < unit(s).len() implies unit(s)[i] == 0 by {
        assert((length + s + zeros)[i] == zeros[i - 8 - s.len()]);
    }
}

/// One element of an archive stream.
pub enum Piece {
    /// A literal byte.
    Byte(u8),
    /// All the bytes of the file found at `source`, `size` of them.
    Contents { source: Seq<u8>, size: u64 },
}

/// Literal bytes as stream elements.
pub open spec fn literal(bytes: Seq<u8>) -> Seq<Piece> {
    bytes.map_values(|b: u8| Piece::Byte(b))
}

/// A run of the archive as it is handed out.
pub enum Chunk {
    /// Bytes to write as they are.
    Bytes(Vec<u8>),
    /// The file at `source` is copied here; it must yield exactly `size` bytes.
    Contents { source: Vec<u8>, size: u64 },
}

impl Chunk {
    /// The stream elements that the chunk stands for.
    pub open spec fn pieces(self) -> Seq<Piece> {
        match self {
            Chunk::Bytes(bytes) => literal(bytes@),
            Chunk::Contents { source, size } => seq![Piece::Contents { source: source@, size }],
        }
    }
}

/// The stream elements that a sequence of chunks stands for.
pub open spec fn chunks_pieces(chunks: Seq<Chunk>) -> Seq<Piece>
    decreases chunks.len(),
{
    if chunks.len() == 0 {
        Seq::empty()
    } else {
        chunks_pieces(chunks.drop_last()) + chunks.last().pieces()
    }
}

/// Appending one chunk appends its elements.
pub proof fn lemma_chunks_pieces_push(chunks: Seq<Chunk>, chunk: Chunk)
    ensures
        chunks_pieces(chunks.push(chunk)) == chunks_pieces(chunks) + chunk.pieces(),
{
    assert(chunks.push(chunk).drop_last() == chunks);
}

/// Literal elements of a concatenation.
pub proof fn lemma_literal_add(a: Seq<u8>, b: Seq<u8>)
    ensures
        literal(a + b) == literal(a) + literal(b),
{
    assert(literal(a + b) =~= literal(a) + literal(b));
}

/// Accumulates an archive stream as a list of chunks, joining adjacent
/// literal bytes into one chunk.
pub struct NarWriter {
    chunks: Vec<Chunk>,
}

impl View for NarWriter {
    type V = Seq<Piece>;

    /// The stream written so far.
    closed spec fn view(&self) -> Seq<Piece> {
        chunks_pieces(self.chunks@)
    }
}

/// `target` followed by a copy of `bytes`.
fn append_bytes(target: &mut Vec<u8>, bytes: &[u8])
    ensures
        final(target)@ == old(target)@ + bytes@,
{
    let mut i: usize = 0;
    while i < bytes.len()
        invariant
            i <= bytes@.len(),
            target@ == old(target)@ + bytes@.take(i as int),
        decreases bytes@.len() - i,
    {
        target.push(bytes[i]);
        i = i + 1;
    }
    assert(bytes@.take(bytes@.len() as int) == bytes@);
}

impl NarWriter {
    /// A writer that holds nothing yet.
    pub fn new() -> (writer: NarWriter)
        ensures
            writer@ == Seq::<Piece>::empty(),
    {
        NarWriter { chunks: Vec::new() }
    }

    /// Appends literal bytes.
    pub fn write_bytes(&mut self, bytes: &[u8])
        ensures
            final(self)@ == old(self)@ + literal(bytes@),
    {
        let ghost before = self.chunks@;
        match self.chunks.pop() {
            Some(Chunk::Bytes(mut tail)) => {
                let ghost head = tail@;
                append_bytes(&mut tail, bytes);
                self.chunks.push(Chunk::Bytes(tail));
                proof {
                    lemma_chunks_pieces_push(before.drop_last(), Chunk::Bytes(tail));
                    lemma_literal_add(head, bytes@);
                }
            },
            Some(other) => {
                self.chunks.push(other);
                let mut tail: Vec<u8> = Vec::new();
                append_bytes(&mut tail, bytes);
                self.chunks.push(Chunk::Bytes(tail));
                proof {
                    assert(before.drop_last().push(other) == before);
                    lemma_chunks_pieces_push(before, Chunk::Bytes(tail));
                    assert(tail@ == bytes@);
                }
            },
            None => {
                let mut tail: Vec<u8> = Vec::new();
                append_bytes(&mut tail, bytes);
                self.chunks.push(Chunk::Bytes(tail));
                proof {
                    lemma_chunks_pieces_push(before, Chunk::Bytes(tail));
                    assert(tail@ == bytes@);
                }
            },
        }
    }

    /// Appends the place of a file's contents.
    pub fn write_contents(&mut self, source: &[u8], size: u64)
        ensures
            final(self)@ == old(self)@.push(Piece::Contents { source: source@, size }),
    {
        let mut copy: Vec<u8> = Vec::new();
        append_bytes(&mut copy, source);
        let chunk = Chunk::Contents { source: copy, size };
        proof {
            lemma_chunks_pieces_push(self.chunks@, chunk);
            assert(copy@ == source@);
        }
        self.chunks.push(chunk);
    }

    /// The chunks written so far, in order.
    pub fn into_chunks(self) -> (chunks: Vec<Chunk>)
        ensures
            chunks_pieces(chunks@) == self@,
    {
        self.chunks
    }
}

/// A copy of `bytes[from..to]`.
fn copy_range(bytes: &[u8], from: usize, to: usize) -> (copy: Vec<u8>)
    requires
        from <= to <= bytes@.len(),
    ensures
        copy@ == bytes@.subrange(from as int, to as int),
{
    let mut copy: Vec<u8> = Vec::new();
    let mut i: usize = from;
    while i < to
        invariant
            from <= i <= to <= bytes@.len(),
            copy@ == bytes@.subrange(from as int, i as int),
        decreases to - i,
    {
        copy.push(bytes[i]);
        i = i + 1;
        assert(bytes@.subrange(from as int, i as int) == bytes@.subrange(from as int, i - 1).push(
            bytes@[i - 1],
        ));
    }
    copy
}

/// Whether `needle` stands in `hay` at offset `at`.
fn bytes_match_at(hay: &[u8], at: usize, needle: &[u8]) -> (r: bool)
    requires
        at + needle@.len() <= hay@.len(),
    ensures
        r == (hay@.subrange(at as int, at + needle@.len()) == needle@),
{
    let mut i: usize = 0;
    while i < needle.len()
        invariant
            i <= needle.len(),
            at + needle.len() <= hay.len(),
            forall|k: int| 0 <= k < i ==> hay@[at + k] == needle@[k],
        decreases needle.len() - i,
    {
        if hay[at + i] != needle[i] {
            assert(hay@.subrange(at as int, at + needle@.len())[i as int] != needle@[i as int]);
            return false;
        }
        i = i + 1;
    }
    assert(hay@.subrange(at as int, at + needle@.len()) =~= needle@);
    true
}

/// The eight bytes of a length.
fn length_bytes(n: u64) -> (bytes: Vec<u8>)
    ensures
        bytes@ == le_bytes(n),
{
    let mut bytes: Vec<u8> = Vec::new();
    let mut rest: u64 = n;
    let mut k: usize = 0;
    while k < 8
        invariant
            k <= 8,
            le_bytes(n) == bytes@ + le_bytes_of(rest as nat, (8 - k) as nat),
        decreases 8 - k,
    {
        let ghost before = bytes@;
        bytes.push((rest % 256) as u8);
        assert(bytes@ + le_bytes_of((rest / 256) as nat, (8 - k - 1) as nat) == before + le_bytes_of(
            rest as nat,
            (8 - k) as nat,
        ));
        rest = rest / 256;
        k = k + 1;
    }
    bytes
}

/// Appends the zero bytes that follow a string of `len` bytes.
fn push_padding(target: &mut Vec<u8>, len: u64)
    ensures
        final(target)@ == old(target)@ + padding(len as nat),
{
    let count: u64 = (8 - len % 8) % 8;
    let mut i: u64 = 0;
    while i < count
        invariant
            i <= count,
            count == padding_len(len as nat),
            target@ == old(target)@ + Seq::new(i as nat, |j: int| 0u8),
        decreases count - i,
    {
        target.push(0u8);
        i = i + 1;
        assert(target@ == old(target)@ + Seq::new(i as nat, |j: int| 0u8));
    }
}

/// Appends one byte string as the archive writes it.
fn push_unit(target: &mut Vec<u8>, s: &[u8])
    ensures
        final(target)@ == old(target)@ + unit(s@),
{
    let len: u64 = s.len() as u64;
    let mut bytes = length_bytes(len);
    append_bytes(&mut bytes, s);
    push_padding(&mut bytes, len);
    append_bytes(target, bytes.as_slice());
}

/// Appends one token as the archive writes it.
fn push_token(target: &mut Vec<u8>, t: &str)
    ensures
        final(target)@ == old(target)@ + token(t),
{
    push_unit(target, t.as_bytes());
}

/// Writes one byte string: its length, its bytes, and its padding.
pub fn write_string(writer: &mut NarWriter, s: &[u8])
    ensures
        final(writer)@ == old(writer)@ + literal(unit(s@)),
{
    let mut bytes: Vec<u8> = Vec::new();
    push_unit(&mut bytes, s);
    writer.write_bytes(bytes.as_slice());
}

/// Writes one token.
pub fn write_str(writer: &mut NarWriter, s: &str)
    ensures
        final(writer)@ == old(writer)@ + literal(token(s)),
{
    write_string(writer, s.as_bytes());
}

/// Whether the case marker stands in `name` at offset `at`.
pub open spec fn marker_at(name: Seq<u8>, at: int) -> bool {
    let marker = CASE_HACK_SUFFIX.spec_bytes();
    0 <= at && at + marker.len() <= name.len() && name.subrange(at, at + marker.len()) == marker
}

/// Whether the case marker occurs in `name`.
pub open spec fn has_marker(name: Seq<u8>) -> bool {
    exists|at: int| marker_at(name, at)
}

/// Offset of the first occurrence of the case marker in `name`.
pub open spec fn first_marker(name: Seq<u8>) -> int
    recommends
        has_marker(name),
{
    choose|at: int| marker_at(name, at) && forall|other: int| marker_at(name, other) ==> at <= other
}

/// The name under which an entry is archived: with `use_case_hack`, a name
/// that holds the case marker is cut at the marker's first byte.
pub open spec fn strip_case_hack(name: Seq<u8>, use_case_hack: bool) -> Seq<u8> {
    if use_case_hack && has_marker(name) {
        name.take(first_marker(name))
    } else {
        name
    }
}

/// The first occurrence is the one that no other precedes.
pub proof fn lemma_first_marker(name: Seq<u8>, at: int)
    requires
        marker_at(name, at),
        forall|other: int| marker_at(name, other) ==> at <= other,
    ensures
        has_marker(name),
        first_marker(name) == at,
{
    let chosen = first_marker(name);
    assert(marker_at(name, chosen) && forall|other: int| marker_at(name, other) ==> chosen <= other);
}

/// Where the marker occurs, it has a first occurrence.
pub proof fn lemma_first_marker_exists(name: Seq<u8>)
    requires
        has_marker(name),
    ensures
        marker_at(name, first_marker(name)),
        forall|other: int| marker_at(name, other) ==> first_marker(name) <= other,
{
    let some = choose|at: int| marker_at(name, at);
    lemma_least_marker(name, some);
}

/// Before any occurrence stands a first one.
proof fn lemma_least_marker(name: Seq<u8>, at: int)
    requires
        marker_at(name, at),
    ensures
        exists|least: int|
            marker_at(name, least) && forall|other: int| marker_at(name, other) ==> least <= other,
    decreases at,
{
    if exists|earlier: int| marker_at(name, earlier) && earlier < at {
        let earlier = choose|earlier: int| marker_at(name, earlier) && earlier < at;
        lemma_least_marker(name, earlier);
    } else {
        assert(marker_at(name, at) && forall|other: int| marker_at(name, other) ==> at <= other);
    }
}

/// Offset of the first occurrence of the case marker in `name`, if it occurs.
fn find_marker(name: &[u8]) -> (found: Option<usize>)
    ensures
        found is Some == has_marker(name@),
        found matches Some(at) ==> first_marker(name@) == at && at <= name@.len(),
{
    let marker = CASE_HACK_SUFFIX.as_bytes();
    if marker.len() > name.len() {
        return None;
    }
    let last: usize = name.len() - marker.len();
    let mut at: usize = 0;
    while at <= last
        invariant
            at <= last + 1,
            last + marker.len() == name.len(),
            marker@ == CASE_HACK_SUFFIX.spec_bytes(),
            forall|other: int| 0 <= other < at ==> !marker_at(name@, other),
        decreases last + 1 - at,
    {
        if bytes_match_at(name, at, marker) {
            proof {
                lemma_first_marker(name@, at as int);
            }
            return Some(at);
        }
        proof {
            if marker@.len() == 0 {
                assert(name@.subrange(at as int, at as int) =~= marker@);
            }
        }
        at = at + 1;
    }
    None
}

/// The name under which a directory entry is archived.
///
/// With `use_case_hack`, everything from the first occurrence of the case
/// marker on is dropped; without it, and for a name that does not hold the
/// marker, the name is returned as it is.
pub fn strip_case_hack_suffix(name: &[u8], use_case_hack: bool) -> (stripped: Vec<u8>)
    ensures
        stripped@ == strip_case_hack(name@, use_case_hack),
{
    let keep: usize = if use_case_hack {
        match find_marker(name) {
            Some(at) => at,
            None => name.len(),
        }
    } else {
        name.len()
    };
    let stripped = copy_range(name, 0, keep);
    assert(name@.subrange(0, keep as int) == name@.take(keep as int));
    assert(name@.take(name@.len() as int) == name@);
    stripped
}

/// Stripping a name twice gives what stripping it once gives.
pub proof fn lemma_strip_case_hack_idempotent(name: Seq<u8>, use_case_hack: bool)
    ensures
        strip_case_hack(strip_case_hack(name, use_case_hack), use_case_hack) == strip_case_hack(
            name,
            use_case_hack,
        ),
{
    if use_case_hack && has_marker(name) {
        lemma_first_marker_exists(name);
        let at = first_marker(name);
        let cut = name.take(at);
        if has_marker(cut) {
            lemma_first_marker_exists(cut);
            let inner = first_marker(cut);
            let width = CASE_HACK_SUFFIX.spec_bytes().len();
            assert(name.subrange(inner, inner + width) =~= cut.subrange(inner, inner + width));
            assert(marker_at(name, inner));
            assert(cut.take(inner) =~= cut);
        }
    }
}

/// A node of a filesystem tree, as it was observed.
pub enum Node {
    /// A regular file of `size` bytes, whose bytes are found at `source`.
    Regular { executable: bool, size: u64, source: Vec<u8> },
    /// A symbolic link and the raw bytes of what it points to.
    Symlink { target: Vec<u8> },
    /// A directory and its children.
    Directory { entries: Vec<Entry> },
}

/// A child of a directory, under the name that the filesystem gives it.
pub struct Entry {
    pub name: Vec<u8>,
    pub node: Node,
}

/// Byte strings compared byte by byte: the order in which the entries of a
/// directory are archived.
pub open spec fn bytes_le(a: Seq<u8>, b: Seq<u8>) -> bool
    decreases a.len(),
{
    if a.len() == 0 {
        true
    } else if b.len() == 0 {
        false
    } else if a[0] != b[0] {
        a[0] < b[0]
    } else {
        bytes_le(a.drop_first(), b.drop_first())
    }
}

/// Of two byte strings one comes first.
pub proof fn lemma_bytes_le_total(a: Seq<u8>, b: Seq<u8>)
    ensures
        bytes_le(a, b) || bytes_le(b, a),
    decreases a.len(),
{
    if a.len() > 0 && b.len() > 0 && a[0] == b[0] {
        lemma_bytes_le_total(a.drop_first(), b.drop_first());
    }
}

/// The order is transitive.
pub proof fn lemma_bytes_le_transitive(a: Seq<u8>, b: Seq<u8>, c: Seq<u8>)
    requires
        bytes_le(a, b),
        bytes_le(b, c),
    ensures
        bytes_le(a, c),
    decreases a.len(),
{
    if a.len() > 0 && a[0] == b[0] && b[0] == c[0] {
        lemma_bytes_le_transitive(a.drop_first(), b.drop_first(), c.drop_first());
    }
}

/// Two byte strings that each come before the other are the same.
pub proof fn lemma_bytes_le_antisymmetric(a: Seq<u8>, b: Seq<u8>)
    requires
        bytes_le(a, b),
        bytes_le(b, a),
    ensures
        a == b,
    decreases a.len(),
{
    if a.len() > 0 {
        lemma_bytes_le_antisymmetric(a.drop_first(), b.drop_first());
        assert(a =~= seq![a[0]] + a.drop_first());
        assert(b =~= seq![b[0]] + b.drop_first());
    } else {
        assert(a =~= b);
    }
}

/// Entries of which each comes strictly behind the one before it are in
/// order, and no two of them have one name.
proof fn lemma_adjacent_order(entries: Seq<Entry>, a: int, b: int)
    requires
        0 <= a < b < entries.len(),
        forall|k: int|
            0 < k < entries.len() ==> !bytes_le((#[trigger] entries[k]).name@, entries[k - 1].name@),
    ensures
        bytes_le(entries[a].name@, entries[b].name@),
        entries[a].name@ != entries[b].name@,
    decreases b - a,
{
    assert(!bytes_le(entries[b].name@, entries[b - 1].name@));
    lemma_bytes_le_total(entries[b - 1].name@, entries[b].name@);
    if a + 1 < b {
        lemma_adjacent_order(entries, a, b - 1);
        lemma_bytes_le_transitive(entries[a].name@, entries[b - 1].name@, entries[b].name@);
    } else {
        lemma_bytes_le_total(entries[b].name@, entries[b].name@);
    }
}

/// Whether the entries stand in byte order of their names, no name twice.
fn in_strict_order(entries: &Vec<Entry>) -> (ok: bool)
    ensures
        ok == (sorted_by_name(entries@) && names_distinct(entries@)),
{
    let mut i: usize = 1;
    while i < entries.len()
        invariant
            1 <= i,
            forall|k: int|
                0 < k < i && k < entries@.len() ==> !bytes_le(
                    (#[trigger] entries@[k]).name@,
                    entries@[k - 1].name@,
                ),
        decreases entries.len() - i,
    {
        if name_le(entries[i].name.as_slice(), entries[i - 1].name.as_slice()) {
            proof {
                if sorted_by_name(entries@) && names_distinct(entries@) {
                    assert(bytes_le(entries@[i - 1].name@, entries@[i as int].name@));
                    assert(entries@[i - 1].name@ != entries@[i as int].name@);
                    lemma_bytes_le_antisymmetric(entries@[i - 1].name@, entries@[i as int].name@);
                }
            }
            return false;
        }
        i = i + 1;
    }
    proof {
        assert forall|a: int, b: int| 0 <= a < b < entries@.len() implies bytes_le(
            (#[trigger] entries@[a]).name@,
            (#[trigger] entries@[b]).name@,
        ) && entries@[a].name@ != entries@[b].name@ by {
            lemma_adjacent_order(entries@, a, b);
        }
    }
    true
}

/// Whether `a` comes before `b`, or is `b`, in byte order.
pub fn name_le(a: &[u8], b: &[u8]) -> (r: bool)
    ensures
        r == bytes_le(a@, b@),
{
    let mut i: usize = 0;
    assert(a@.skip(0) == a@ && b@.skip(0) == b@);
    while i < a.len() && i < b.len()
        invariant
            i <= a.len(),
            i <= b.len(),
            bytes_le(a@, b@) == bytes_le(a@.skip(i as int), b@.skip(i as int)),
        decreases a.len() - i,
    {
        assert(a@.skip(i as int).drop_first() == a@.skip(i + 1));
        assert(b@.skip(i as int).drop_first() == b@.skip(i + 1));
        if a[i] != b[i] {
            return a[i] < b[i];
        }
        i = i + 1;
    }
    i == a.len()
}

/// `entry` put before the first of `sorted` that does not come before it.
pub open spec fn insert_sorted(entry: Entry, sorted: Seq<Entry>) -> Seq<Entry>
    decreases sorted.len(),
{
    if sorted.len() == 0 {
        seq![entry]
    } else if bytes_le(entry.name@, sorted[0].name@) {
        seq![entry] + sorted
    } else {
        seq![sorted[0]] + insert_sorted(entry, sorted.drop_first())
    }
}

/// The entries in byte order of their names; entries of one name keep their order.
pub open spec fn sort_entries(entries: Seq<Entry>) -> Seq<Entry>
    decreases entries.len(),
{
    if entries.len() == 0 {
        entries
    } else {
        insert_sorted(entries[0], sort_entries(entries.drop_first()))
    }
}

/// Whether each entry comes before those behind it.
pub open spec fn sorted_by_name(entries: Seq<Entry>) -> bool {
    forall|i: int, j: int|
        0 <= i < j < entries.len() ==> bytes_le(
            (#[trigger] entries[i]).name@,
            (#[trigger] entries[j]).name@,
        )
}

/// Whether no two entries have the same name.
pub open spec fn names_distinct(entries: Seq<Entry>) -> bool {
    forall|i: int, j: int|
        0 <= i < j < entries.len() ==> (#[trigger] entries[i]).name@ != (
        #[trigger] entries[j]).name@
}

/// Where `insert_sorted` puts `entry`: behind the leading entries of `sorted`
/// that it does not come before.
pub open spec fn insert_index(entry: Entry, sorted: Seq<Entry>) -> int
    decreases sorted.len(),
{
    if sorted.len() == 0 || bytes_le(entry.name@, sorted[0].name@) {
        0
    } else {
        1 + insert_index(entry, sorted.drop_first())
    }
}

/// An entry inserted lands behind the entries that it does not come before.
proof fn lemma_insert_position(entry: Entry, sorted: Seq<Entry>, at: int)
    requires
        0 <= at <= sorted.len(),
        forall|k: int| 0 <= k < at ==> !bytes_le(entry.name@, sorted[k].name@),
        at < sorted.len() ==> bytes_le(entry.name@, sorted[at].name@),
    ensures
        insert_sorted(entry, sorted) == sorted.insert(at, entry),
    decreases sorted.len(),
{
    if sorted.len() == 0 {
        assert(sorted.insert(at, entry) =~= seq![entry]);
    } else if at == 0 {
        assert(sorted.insert(at, entry) =~= seq![entry] + sorted);
    } else {
        let rest = sorted.drop_first();
        assert forall|k: int| 0 <= k < at - 1 implies !bytes_le(entry.name@, rest[k].name@) by {
            assert(rest[k] == sorted[k + 1]);
        }
        lemma_insert_position(entry, rest, at - 1);
        assert(sorted.insert(at, entry) =~= seq![sorted[0]] + rest.insert(at - 1, entry));
    }
}

/// `insert_index` is where `insert_sorted` puts the entry.
proof fn lemma_insert_index(entry: Entry, sorted: Seq<Entry>)
    ensures
        0 <= insert_index(entry, sorted) <= sorted.len(),
        forall|k: int|
            0 <= k < insert_index(entry, sorted) ==> !bytes_le(entry.name@, sorted[k].name@),
        insert_index(entry, sorted) < sorted.len() ==> bytes_le(
            entry.name@,
            sorted[insert_index(entry, sorted)].name@,
        ),
        insert_sorted(entry, sorted) == sorted.insert(insert_index(entry, sorted), entry),
    decreases sorted.len(),
{
    if !(sorted.len() == 0 || bytes_le(entry.name@, sorted[0].name@)) {
        let rest = sorted.drop_first();
        lemma_insert_index(entry, rest);
        assert forall|k: int| 0 <= k < insert_index(entry, sorted) implies !bytes_le(
            entry.name@,
            sorted[k].name@,
        ) by {
            if k > 0 {
                assert(rest[k - 1] == sorted[k]);
            }
        }
    }
    lemma_insert_position(entry, sorted, insert_index(entry, sorted));
}

/// Inserting into sorted entries keeps them sorted and adds just the entry.
pub proof fn lemma_insert_sorted(entry: Entry, sorted: Seq<Entry>)
    requires
        sorted_by_name(sorted),
    ensures
        sorted_by_name(insert_sorted(entry, sorted)),
        insert_sorted(entry, sorted).to_multiset() == sorted.to_multiset().insert(entry),
{
    let at = insert_index(entry, sorted);
    let result = sorted.insert(at, entry);
    lemma_insert_index(entry, sorted);
    vstd::seq_lib::to_multiset_insert(sorted, at, entry);
    assert forall|i: int, j: int| 0 <= i < j < result.len() implies bytes_le(
        (#[trigger] result[i]).name@,
        (#[trigger] result[j]).name@,
    ) by {
        if j < at {
            assert(result[i] == sorted[i] && result[j] == sorted[j]);
        } else if j == at {
            assert(result[i] == sorted[i]);
            lemma_bytes_le_total(entry.name@, sorted[i].name@);
        } else if i < at {
            assert(result[i] == sorted[i] && result[j] == sorted[j - 1]);
        } else if i == at {
            assert(result[j] == sorted[j - 1]);
            if j - 1 > at {
                assert(bytes_le(sorted[at].name@, sorted[j - 1].name@));
                lemma_bytes_le_transitive(entry.name@, sorted[at].name@, sorted[j - 1].name@);
            }
        } else {
            assert(result[i] == sorted[i - 1] && result[j] == sorted[j - 1]);
        }
    }
}

/// Sorting orders the entries by name and neither adds nor drops one.
pub proof fn lemma_sort_entries(entries: Seq<Entry>)
    ensures
        sorted_by_name(sort_entries(entries)),
        sort_entries(entries).to_multiset() == entries.to_multiset(),
        sort_entries(entries).len() == entries.len(),
    decreases entries.len(),
{
    if entries.len() > 0 {
        let rest = entries.drop_first();
        lemma_sort_entries(rest);
        lemma_insert_sorted(entries[0], sort_entries(rest));
        vstd::seq_lib::to_multiset_insert(rest, 0, entries[0]);
        assert(rest.insert(0, entries[0]) =~= entries);
    }
    vstd::seq_lib::to_multiset_len(entries);
    vstd::seq_lib::to_multiset_len(sort_entries(entries));
}

/// Entries with the same members as entries of distinct names have distinct names.
proof fn lemma_names_distinct_of_same_members(a: Seq<Entry>, b: Seq<Entry>)
    requires
        names_distinct(a),
        a.to_multiset() == b.to_multiset(),
    ensures
        names_distinct(b),
{
    assert(a.no_duplicates()) by {
        assert forall|i: int, j: int| 0 <= i < a.len() && 0 <= j < a.len() && i != j implies a[i]
            != a[j] by {
            if i < j {
                assert(a[i].name@ != a[j].name@);
            } else {
                assert(a[j].name@ != a[i].name@);
            }
        }
    }
    a.lemma_multiset_has_no_duplicates();
    b.lemma_multiset_has_no_duplicates_conv();
    assert forall|i: int, j: int| 0 <= i < j < b.len() implies (#[trigger] b[i]).name@ != (
    #[trigger] b[j]).name@ by {
        assert(b.contains(b[i]) && b.contains(b[j]));
        vstd::seq_lib::to_multiset_contains(b, b[i]);
        vstd::seq_lib::to_multiset_contains(b, b[j]);
        vstd::seq_lib::to_multiset_contains(a, b[i]);
        vstd::seq_lib::to_multiset_contains(a, b[j]);
        assert(a.contains(b[i]) && a.contains(b[j]));
        let p = choose|p: int| 0 <= p < a.len() && a[p] == b[i];
        let q = choose|q: int| 0 <= q < a.len() && a[q] == b[j];
        assert(b[i] != b[j]);
        if p < q {
            assert(a[p].name@ != a[q].name@);
        } else {
            assert(a[q].name@ != a[p].name@);
        }
    }
}

/// Sorted entries of distinct names are determined by their members.
proof fn lemma_sorted_unique(x: Seq<Entry>, y: Seq<Entry>)
    requires
        sorted_by_name(x),
        sorted_by_name(y),
        names_distinct(x),
        x.to_multiset() == y.to_multiset(),
    ensures
        x == y,
    decreases x.len(),
{
    vstd::seq_lib::to_multiset_len(x);
    vstd::seq_lib::to_multiset_len(y);
    if x.len() == 0 {
        assert(x =~= y);
    } else {
        assert(x.contains(x[0]) && y.contains(y[0]));
        vstd::seq_lib::to_multiset_contains(x, x[0]);
        vstd::seq_lib::to_multiset_contains(y, x[0]);
        vstd::seq_lib::to_multiset_contains(x, y[0]);
        vstd::seq_lib::to_multiset_contains(y, y[0]);
        assert(y.contains(x[0]) && x.contains(y[0]));
        let k = choose|k: int| 0 <= k < y.len() && y[k] == x[0];
        let m = choose|m: int| 0 <= m < x.len() && x[m] == y[0];
        if m != 0 {
            assert(bytes_le(x[0].name@, x[m].name@));
            if k != 0 {
                assert(bytes_le(y[0].name@, y[k].name@));
            }
            lemma_bytes_le_antisymmetric(x[0].name@, y[0].name@);
            assert(x[0].name@ != x[m].name@);
        }
        assert(x[0] == y[0]);
        let xr = x.drop_first();
        let yr = y.drop_first();
        vstd::seq_lib::to_multiset_remove(x, 0);
        vstd::seq_lib::to_multiset_remove(y, 0);
        assert(x.remove(0) =~= xr);
        assert(y.remove(0) =~= yr);
        assert(sorted_by_name(xr)) by {
            assert forall|i: int, j: int| 0 <= i < j < xr.len() implies bytes_le(
                (#[trigger] xr[i]).name@,
                (#[trigger] xr[j]).name@,
            ) by {
                assert(xr[i] == x[i + 1] && xr[j] == x[j + 1]);
            }
        }
        assert(sorted_by_name(yr)) by {
            assert forall|i: int, j: int| 0 <= i < j < yr.len() implies bytes_le(
                (#[trigger] yr[i]).name@,
                (#[trigger] yr[j]).name@,
            ) by {
                assert(yr[i] == y[i + 1] && yr[j] == y[j + 1]);
            }
        }
        assert(names_distinct(xr)) by {
            assert forall|i: int, j: int| 0 <= i < j < xr.len() implies (#[trigger] xr[i]).name@
                != (#[trigger] xr[j]).name@ by {
                assert(xr[i] == x[i + 1] && xr[j] == x[j + 1]);
            }
        }
        lemma_sorted_unique(xr, yr);
        assert(x =~= seq![x[0]] + xr);
        assert(y =~= seq![y[0]] + yr);
    }
}

/// Every sorted entry is one of the entries that were sorted.
proof fn lemma_sort_entries_members(entries: Seq<Entry>)
    ensures
        forall|i: int|
            0 <= i < sort_entries(entries).len() ==> entries.contains(
                #[trigger] sort_entries(entries)[i],
            ),
{
    let sorted = sort_entries(entries);
    lemma_sort_entries(entries);
    assert forall|i: int| 0 <= i < sorted.len() implies entries.contains(#[trigger] sorted[i]) by {
        assert(sorted.contains(sorted[i]));
        vstd::seq_lib::to_multiset_contains(sorted, sorted[i]);
        vstd::seq_lib::to_multiset_contains(entries, sorted[i]);
    }
}

/// The order in which a directory was listed does not matter: two listings
/// with the same members, no name twice, sort to the same sequence.
pub proof fn lemma_sort_entries_order_independent(a: Seq<Entry>, b: Seq<Entry>)
    requires
        names_distinct(a),
        a.to_multiset() == b.to_multiset(),
    ensures
        sort_entries(a) == sort_entries(b),
{
    lemma_sort_entries(a);
    lemma_sort_entries(b);
    lemma_names_distinct_of_same_members(a, sort_entries(a));
    lemma_sorted_unique(sort_entries(a), sort_entries(b));
}

/// The entries in byte order of their names.
fn sort_by_name(entries: Vec<Entry>) -> (sorted: Vec<Entry>)
    ensures
        sorted@ == sort_entries(entries@),
{
    let mut rest = entries;
    let mut sorted: Vec<Entry> = Vec::new();
    while rest.len() > 0
        invariant
            rest@ == entries@.take(rest@.len() as int),
            rest@.len() <= entries@.len(),
            sorted@ == sort_entries(entries@.skip(rest@.len() as int)),
        decreases rest@.len(),
    {
        let ghost n = rest@.len();
        let entry = rest.pop().unwrap();
        let mut at: usize = 0;
        while at < sorted.len() && !name_le(entry.name.as_slice(), sorted[at].name.as_slice())
            invariant
                at <= sorted.len(),
                forall|k: int| 0 <= k < at ==> !bytes_le(entry.name@, sorted@[k].name@),
            decreases sorted.len() - at,
        {
            at = at + 1;
        }
        proof {
            lemma_insert_position(entry, sorted@, at as int);
            assert(entry == entries@[n - 1]);
            assert(entries@.skip(n - 1).drop_first() == entries@.skip(n as int));
            assert(rest@ == entries@.take(n - 1));
        }
        sorted.insert(at, entry);
    }
    assert(entries@.skip(0) == entries@);
    sorted
}

impl Node {
    /// A regular file of `size` bytes whose contents are found at `source`.
    pub fn regular(executable: bool, size: u64, source: Vec<u8>) -> (node: Node)
        ensures
            node == (Node::Regular { executable, size, source }),
    {
        Node::Regular { executable, size, source }
    }

    /// A symbolic link to `target`.
    pub fn symlink(target: Vec<u8>) -> (node: Node)
        ensures
            node == (Node::Symlink { target }),
    {
        Node::Symlink { target }
    }

    /// A directory of the given children, whatever the order in which they
    /// were listed: it holds them in byte order of their names. The names
    /// ordered are those under which the filesystem holds the children; where
    /// the case marker is cut from them on writing, it is cut afterwards, so
    /// that the names written may then stand out of order, or be equal.
    pub fn directory(entries: Vec<Entry>) -> (node: Node)
        ensures
            node is Directory,
            node->entries@ == sort_entries(entries@),
            names_distinct(entries@) && (forall|i: int|
                0 <= i < entries@.len() ==> (#[trigger] entries@[i]).node.wf()) ==> node.wf(),
    {
        proof {
            if names_distinct(entries@) {
                lemma_sort_entries(entries@);
                lemma_names_distinct_of_same_members(entries@, sort_entries(entries@));
            }
            lemma_sort_entries_members(entries@);
        }
        Node::Directory { entries: sort_by_name(entries) }
    }

    /// Whether every directory of the tree holds its entries in byte order of
    /// their names, no name twice.
    pub open spec fn wf(self) -> bool
        decreases self,
    {
        match self {
            Node::Directory { entries } => {
                &&& sorted_by_name(entries@)
                &&& names_distinct(entries@)
                &&& forall|i: int| 0 <= i < entries@.len() ==> (#[trigger] entries@[i]).node.wf()
            },
            _ => true,
        }
    }

    /// Whether the tree is well formed.
    pub fn is_wf(&self) -> (ok: bool)
        ensures
            ok == self.wf(),
    {
        tree_is_wf(self)
    }
}

/// Whether the tree rooted at `node` is well formed.
fn tree_is_wf(node: &Node) -> (ok: bool)
    ensures
        ok == node.wf(),
    decreases *node,
{
    match node {
        Node::Directory { entries } => {
            if !in_strict_order(entries) {
                return false;
            }
            let mut i: usize = 0;
            while i < entries.len()
                invariant
                    i <= entries.len(),
                    *node == (Node::Directory { entries: *entries }),
                    forall|k: int| 0 <= k < i ==> (#[trigger] entries@[k]).node.wf(),
                decreases entries.len() - i,
            {
                let entry = &entries[i];
                proof {
                    assert(*node is Directory && node->entries == *entries);
                    assert(*entry == entries[i as int]);
                }
                if !tree_is_wf(&entry.node) {
                    return false;
                }
                i = i + 1;
            }
            true
        },
        _ => true,
    }
}

impl Entry {
    /// The child `node` under `name`.
    pub fn new(name: Vec<u8>, node: Node) -> (entry: Entry)
        ensures
            entry == (Entry { name, node }),
    {
        Entry { name, node }
    }
}

/// The kinds of filesystem object that an archive can hold.
#[derive(Debug, Clone, Copy, PartialEq, Eq)]
pub enum FileKind {
    Regular,
    Directory,
    Symlink,
}

/// Why a tree could not be archived.
#[derive(Debug, Clone, Copy, PartialEq, Eq)]
pub enum NarError {
    /// The object is neither a regular file, a directory nor a symbolic link.
    UnsupportedFileType,
    /// A file yielded another number of bytes than its declared length.
    SizeMismatch { expected: u64, copied: u64 },
}

/// The kind of an object from what the filesystem reports of it. Anything
/// but a regular file, a directory or a symbolic link is refused.
pub fn classify(is_file: bool, is_dir: bool, is_symlink: bool) -> (kind: Result<FileKind, NarError>)
    ensures
        kind == (if is_file {
            Ok::<FileKind, NarError>(FileKind::Regular)
        } else if is_dir {
            Ok(FileKind::Directory)
        } else if is_symlink {
            Ok(FileKind::Symlink)
        } else {
            Err(NarError::UnsupportedFileType)
        }),
{
    if is_file {
        Ok(FileKind::Regular)
    } else if is_dir {
        Ok(FileKind::Directory)
    } else if is_symlink {
        Ok(FileKind::Symlink)
    } else {
        Err(NarError::UnsupportedFileType)
    }
}

/// Whether a file with permission bits `mode` is archived as executable:
/// whether any of its three execute bits is set.
pub fn is_executable(mode: u32) -> (executable: bool)
    ensures
        executable == (mode & 0o111 != 0),
{
    mode & 0o111 != 0
}

/// Holds a file to its declared length: `copied` bytes were streamed where
/// `expected` were announced.
pub fn check_copied(expected: u64, copied: u64) -> (r: Result<(), NarError>)
    ensures
        r == (if copied == expected {
            Ok::<(), NarError>(())
        } else {
            Err(NarError::SizeMismatch { expected, copied })
        }),
{
    if copied == expected {
        Ok(())
    } else {
        Err(NarError::SizeMismatch { expected, copied })
    }
}

/// What precedes the contents of a regular file.
pub open spec fn regular_head(executable: bool, size: u64) -> Seq<u8> {
    token("type") + token("regular") + (if executable {
        token("executable") + token("")
    } else {
        Seq::empty()
    }) + token("contents") + le_bytes(size)
}

/// A symbolic link as the archive writes it.
pub open spec fn symlink_bytes(target: Seq<u8>) -> Seq<u8> {
    token("type") + token("symlink") + token("target") + unit(target)
}

/// What opens a directory.
pub open spec fn directory_head() -> Seq<u8> {
    token("type") + token("directory")
}

/// What precedes the node of a directory entry.
pub open spec fn entry_head(name: Seq<u8>, use_case_hack: bool) -> Seq<u8> {
    token("entry") + token("(") + token("name") + unit(strip_case_hack(name, use_case_hack))
        + token("node") + token("(")
}

/// What follows the node of a directory entry.
pub open spec fn entry_tail() -> Seq<u8> {
    token(")") + token(")")
}

/// A node as the archive writes it.
pub open spec fn node_pieces(node: Node, use_case_hack: bool) -> Seq<Piece>
    decreases node, 1nat, 0nat,
{
    match node {
        Node::Regular { executable, size, source } => literal(regular_head(executable, size))
            + seq![Piece::Contents { source: source@, size }] + literal(padding(size as nat)),
        Node::Symlink { target } => literal(symlink_bytes(target@)),
        Node::Directory { entries } => literal(directory_head()) + entries_pieces(
            node,
            entries@.len(),
            use_case_hack,
        ),
    }
}

/// The first `upto` entries of the directory `dir` as the archive writes them,
/// in the order in which the directory holds them.
pub open spec fn entries_pieces(dir: Node, upto: nat, use_case_hack: bool) -> Seq<Piece>
    decreases dir, 0nat, upto,
{
    match dir {
        Node::Directory { entries } => if 0 < upto <= entries@.len() {
            let entry = entries@[upto - 1];
            entries_pieces(dir, (upto - 1) as nat, use_case_hack) + literal(
                entry_head(entry.name@, use_case_hack),
            ) + node_pieces(entry.node, use_case_hack) + literal(entry_tail())
        } else {
            Seq::empty()
        },
        _ => Seq::empty(),
    }
}

/// A whole archive: the magic token, then the root node in parentheses.
pub open spec fn archive_pieces(root: Node, use_case_hack: bool) -> Seq<Piece> {
    literal(token(NAR_VERSION_MAGIC_1) + token("(")) + node_pieces(root, use_case_hack) + literal(
        token(")"),
    )
}

/// One more entry of a directory adds its framing and its node.
pub proof fn lemma_entries_pieces_step(dir: Node, done: nat, use_case_hack: bool)
    requires
        dir is Directory,
        done < dir->entries@.len(),
    ensures
        entries_pieces(dir, done + 1, use_case_hack) == entries_pieces(dir, done, use_case_hack)
            + literal(entry_head(dir->entries@[done as int].name@, use_case_hack)) + node_pieces(
            dir->entries@[done as int].node,
            use_case_hack,
        ) + literal(entry_tail()),
{
}

/// Appending a framed node to a stream, part by part or at once.
proof fn lemma_append_framed(base: Seq<Piece>, open: Seq<Piece>, node: Seq<Piece>, close: Seq<Piece>)
    ensures
        base + open + node + close == base + (open + node + close),
{
    assert(base + open + node + close =~= base + (open + node + close));
}

/// Appending the parts of one entry to a stream, one by one or at once.
proof fn lemma_append_entry(
    base: Seq<Piece>,
    done: Seq<Piece>,
    head: Seq<Piece>,
    node: Seq<Piece>,
    tail: Seq<Piece>,
)
    ensures
        base + done + head + node + tail == base + (done + head + node + tail),
{
    assert(base + done + head + node + tail =~= base + (done + head + node + tail));
}

/// What a directory is archived as depends only on the entries it holds.
proof fn lemma_entries_pieces_same_entries(x: Node, y: Node, upto: nat, use_case_hack: bool)
    requires
        x is Directory,
        y is Directory,
        x->entries@ == y->entries@,
    ensures
        entries_pieces(x, upto, use_case_hack) == entries_pieces(y, upto, use_case_hack),
    decreases upto,
{
    if 0 < upto <= x->entries@.len() {
        lemma_entries_pieces_same_entries(x, y, (upto - 1) as nat, use_case_hack);
    }
}

/// Two directories made from listings with the same members, no name twice,
/// are archived as the same stream, whatever the order of either listing.
pub proof fn lemma_archive_order_independent(
    x: Node,
    y: Node,
    a: Seq<Entry>,
    b: Seq<Entry>,
    use_case_hack: bool,
)
    requires
        x is Directory,
        y is Directory,
        x->entries@ == sort_entries(a),
        y->entries@ == sort_entries(b),
        names_distinct(a),
        a.to_multiset() == b.to_multiset(),
    ensures
        sorted_by_name(x->entries@),
        node_pieces(x, use_case_hack) == node_pieces(y, use_case_hack),
        archive_pieces(x, use_case_hack) == archive_pieces(y, use_case_hack),
{
    lemma_sort_entries(a);
    lemma_sort_entries_order_independent(a, b);
    lemma_entries_pieces_same_entries(x, y, x->entries@.len(), use_case_hack);
}

/// The contents of a regular file are followed by exactly
/// `(8 - size mod 8) mod 8` zero bytes.
pub proof fn lemma_contents_padding(node: Node, use_case_hack: bool)
    requires
        node is Regular,
    ensures
        node_pieces(node, use_case_hack) == literal(
            regular_head(node->executable, node->size),
        ).push(Piece::Contents { source: node->source@, size: node->size }) + literal(
            padding(node->size as nat),
        ),
        padding(node->size as nat).len() == (8 - node->size % 8) % 8,
        forall|i: int|
            0 <= i < padding(node->size as nat).len() ==> padding(node->size as nat)[i] == 0,
{
    assert(literal(regular_head(node->executable, node->size)).push(
        Piece::Contents { source: node->source@, size: node->size },
    ) =~= literal(regular_head(node->executable, node->size))
        + seq![Piece::Contents { source: node->source@, size: node->size }]);
}

/// The bytes that a stream stands for, where `contents` tells the bytes of
/// the file found at each source.
pub open spec fn stream_bytes(pieces: Seq<Piece>, contents: spec_fn(Seq<u8>) -> Seq<u8>) -> Seq<u8>
    decreases pieces.len(),
{
    if pieces.len() == 0 {
        Seq::empty()
    } else {
        stream_bytes(pieces.drop_last(), contents) + (match pieces.last() {
            Piece::Byte(b) => seq![b],
            Piece::Contents { source, size } => contents(source),
        })
    }
}

/// The bytes of two streams, one after the other.
pub proof fn lemma_stream_bytes_add(
    a: Seq<Piece>,
    b: Seq<Piece>,
    contents: spec_fn(Seq<u8>) -> Seq<u8>,
)
    ensures
        stream_bytes(a + b, contents) == stream_bytes(a, contents) + stream_bytes(b, contents),
    decreases b.len(),
{
    if b.len() == 0 {
        assert(a + b =~= a);
        assert(stream_bytes(a, contents) + stream_bytes(b, contents) =~= stream_bytes(a, contents));
    } else {
        lemma_stream_bytes_add(a, b.drop_last(), contents);
        assert((a + b).drop_last() =~= a + b.drop_last());
        assert((a + b).last() == b.last());
        let tail = match b.last() {
            Piece::Byte(x) => seq![x],
            Piece::Contents { source, size } => contents(source),
        };
        assert(stream_bytes(a, contents) + stream_bytes(b.drop_last(), contents) + tail
            =~= stream_bytes(a, contents) + (stream_bytes(b.drop_last(), contents) + tail));
    }
}

/// Literal bytes stand for themselves.
pub proof fn lemma_stream_bytes_literal(bytes: Seq<u8>, contents: spec_fn(Seq<u8>) -> Seq<u8>)
    ensures
        stream_bytes(literal(bytes), contents) == bytes,
    decreases bytes.len(),
{
    if bytes.len() == 0 {
        assert(stream_bytes(literal(bytes), contents) =~= bytes);
    } else {
        lemma_stream_bytes_literal(bytes.drop_last(), contents);
        assert(literal(bytes).drop_last() =~= literal(bytes.drop_last()));
        assert(literal(bytes).last() == Piece::Byte(bytes.last()));
        assert(bytes.drop_last() + seq![bytes.last()] =~= bytes);
    }
}

/// Whether every regular file of the tree has as many bytes as it declares.
pub open spec fn contents_fit(node: Node, contents: spec_fn(Seq<u8>) -> Seq<u8>) -> bool
    decreases node,
{
    match node {
        Node::Regular { executable, size, source } => contents(source@).len() == size,
        Node::Symlink { target } => true,
        Node::Directory { entries } => forall|i: int|
            0 <= i < entries@.len() ==> contents_fit((#[trigger] entries@[i]).node, contents),
    }
}

/// Whether a length is a multiple of eight.
pub open spec fn aligned(len: nat) -> bool {
    len % 8 == 0
}

/// A byte string as the archive writes it is a multiple of eight bytes long.
proof fn lemma_unit_aligned(s: Seq<u8>)
    ensures
        aligned(unit(s).len()),
{
    lemma_unit_layout(s);
}

/// A token is a multiple of eight bytes long.
proof fn lemma_token_aligned(t: &str)
    ensures
        aligned(token(t).len()),
{
    lemma_unit_aligned(t.spec_bytes());
}

/// Two aligned byte strings, one after the other, are aligned.
proof fn lemma_aligned_join(a: Seq<u8>, b: Seq<u8>)
    requires
        aligned(a.len()),
        aligned(b.len()),
    ensures
        aligned((a + b).len()),
{
}

/// What precedes the contents of a file is a multiple of eight bytes long.
proof fn lemma_regular_head_aligned(executable: bool, size: u64)
    ensures
        aligned(regular_head(executable, size).len()),
{
    let a = token("type") + token("regular");
    let b = if executable {
        token("executable") + token("")
    } else {
        Seq::<u8>::empty()
    };
    lemma_token_aligned("type");
    lemma_token_aligned("regular");
    lemma_token_aligned("executable");
    lemma_token_aligned("");
    lemma_token_aligned("contents");
    lemma_le_bytes_len(size);
    lemma_aligned_join(token("type"), token("regular"));
    lemma_aligned_join(token("executable"), token(""));
    lemma_aligned_join(a, b);
    lemma_aligned_join(a + b, token("contents"));
    lemma_aligned_join(a + b + token("contents"), le_bytes(size));
}

/// A symbolic link is a multiple of eight bytes long.
proof fn lemma_symlink_aligned(target: Seq<u8>)
    ensures
        aligned(symlink_bytes(target).len()),
{
    lemma_token_aligned("type");
    lemma_token_aligned("symlink");
    lemma_token_aligned("target");
    lemma_unit_aligned(target);
    lemma_aligned_join(token("type"), token("symlink"));
    lemma_aligned_join(token("type") + token("symlink"), token("target"));
    lemma_aligned_join(token("type") + token("symlink") + token("target"), unit(target));
}

/// The framing of directories and entries is a multiple of eight bytes long.
proof fn lemma_framing_aligned(name: Seq<u8>, use_case_hack: bool)
    ensures
        aligned(directory_head().len()),
        aligned(entry_head(name, use_case_hack).len()),
        aligned(entry_tail().len()),
        aligned((token(NAR_VERSION_MAGIC_1) + token("(")).len()),
        aligned(token(")").len()),
{
    let stripped = unit(strip_case_hack(name, use_case_hack));
    lemma_token_aligned("type");
    lemma_token_aligned("directory");
    lemma_token_aligned("entry");
    lemma_token_aligned("(");
    lemma_token_aligned("name");
    lemma_token_aligned("node");
    lemma_token_aligned(")");
    lemma_token_aligned(NAR_VERSION_MAGIC_1);
    lemma_unit_aligned(strip_case_hack(name, use_case_hack));
    lemma_aligned_join(token("type"), token("directory"));
    lemma_aligned_join(token(")"), token(")"));
    lemma_aligned_join(token(NAR_VERSION_MAGIC_1), token("("));
    lemma_aligned_join(token("entry"), token("("));
    lemma_aligned_join(token("entry") + token("("), token("name"));
    lemma_aligned_join(token("entry") + token("(") + token("name"), stripped);
    lemma_aligned_join(token("entry") + token("(") + token("name") + stripped, token("node"));
    lemma_aligned_join(
        token("entry") + token("(") + token("name") + stripped + token("node"),
        token("("),
    );
}

/// The bytes of two aligned streams, one after the other, are aligned.
proof fn lemma_stream_aligned_add(
    a: Seq<Piece>,
    b: Seq<Piece>,
    contents: spec_fn(Seq<u8>) -> Seq<u8>,
)
    requires
        aligned(stream_bytes(a, contents).len()),
        aligned(stream_bytes(b, contents).len()),
    ensures
        aligned(stream_bytes(a + b, contents).len()),
{
    lemma_stream_bytes_add(a, b, contents);
}

/// Aligned literal bytes are an aligned stream.
proof fn lemma_stream_aligned_literal(bytes: Seq<u8>, contents: spec_fn(Seq<u8>) -> Seq<u8>)
    requires
        aligned(bytes.len()),
    ensures
        aligned(stream_bytes(literal(bytes), contents).len()),
{
    lemma_stream_bytes_literal(bytes, contents);
}

/// The contents of a file and its padding are an aligned stream.
proof fn lemma_contents_aligned(source: Seq<u8>, size: u64, contents: spec_fn(Seq<u8>) -> Seq<u8>)
    requires
        contents(source).len() == size,
    ensures
        aligned(
            stream_bytes(
                seq![Piece::Contents { source, size }] + literal(padding(size as nat)),
                contents,
            ).len(),
        ),
{
    let file = seq![Piece::Contents { source, size }];
    assert(file.drop_last() =~= Seq::<Piece>::empty());
    assert(stream_bytes(Seq::<Piece>::empty(), contents) =~= Seq::<u8>::empty());
    assert(stream_bytes(file, contents) =~= contents(source));
    lemma_stream_bytes_literal(padding(size as nat), contents);
    lemma_stream_bytes_add(file, literal(padding(size as nat)), contents);
    lemma_padding_aligns(size as nat);
}

/// Where every file has as many bytes as it declares, the bytes of a node
/// are a multiple of eight.
pub proof fn lemma_node_aligned(
    node: Node,
    use_case_hack: bool,
    contents: spec_fn(Seq<u8>) -> Seq<u8>,
)
    requires
        contents_fit(node, contents),
    ensures
        aligned(stream_bytes(node_pieces(node, use_case_hack), contents).len()),
    decreases node, 1nat, 0nat,
{
    match node {
        Node::Regular { executable, size, source } => {
            let head = literal(regular_head(executable, size));
            let rest = seq![Piece::Contents { source: source@, size }] + literal(
                padding(size as nat),
            );
            lemma_regular_head_aligned(executable, size);
            lemma_stream_aligned_literal(regular_head(executable, size), contents);
            lemma_contents_aligned(source@, size, contents);
            lemma_stream_aligned_add(head, rest, contents);
            assert(node_pieces(node, use_case_hack) =~= head + rest);
        },
        Node::Symlink { target } => {
            lemma_symlink_aligned(target@);
            lemma_stream_aligned_literal(symlink_bytes(target@), contents);
        },
        Node::Directory { entries } => {
            lemma_framing_aligned(Seq::empty(), use_case_hack);
            lemma_entries_aligned(node, entries@.len(), use_case_hack, contents);
            lemma_stream_aligned_literal(directory_head(), contents);
            lemma_stream_aligned_add(
                literal(directory_head()),
                entries_pieces(node, entries@.len(), use_case_hack),
                contents,
            );
        },
    }
}

/// The first entries of a directory are a multiple of eight bytes long.
proof fn lemma_entries_aligned(
    dir: Node,
    upto: nat,
    use_case_hack: bool,
    contents: spec_fn(Seq<u8>) -> Seq<u8>,
)
    requires
        dir is Directory,
        upto <= dir->entries@.len(),
        contents_fit(dir, contents),
    ensures
        aligned(stream_bytes(entries_pieces(dir, upto, use_case_hack), contents).len()),
    decreases dir, 0nat, upto,
{
    if upto > 0 {
        let entry = dir->entries@[upto - 1];
        let before = entries_pieces(dir, (upto - 1) as nat, use_case_hack);
        let head = literal(entry_head(entry.name@, use_case_hack));
        let inner = node_pieces(entry.node, use_case_hack);
        let tail = literal(entry_tail());
        lemma_entries_aligned(dir, (upto - 1) as nat, use_case_hack, contents);
        assert(contents_fit(entry.node, contents));
        lemma_node_aligned(entry.node, use_case_hack, contents);
        lemma_framing_aligned(entry.name@, use_case_hack);
        lemma_stream_aligned_literal(entry_head(entry.name@, use_case_hack), contents);
        lemma_stream_aligned_literal(entry_tail(), contents);
        lemma_stream_aligned_add(before, head, contents);
        lemma_stream_aligned_add(before + head, inner, contents);
        lemma_stream_aligned_add(before + head + inner, tail, contents);
        lemma_entries_pieces_step(dir, (upto - 1) as nat, use_case_hack);
    } else {
        assert(entries_pieces(dir, upto, use_case_hack) =~= Seq::<Piece>::empty());
    }
}

/// Where every file has as many bytes as it declares, a whole archive is a
/// multiple of eight bytes long.
pub proof fn lemma_archive_aligned(
    root: Node,
    use_case_hack: bool,
    contents: spec_fn(Seq<u8>) -> Seq<u8>,
)
    requires
        contents_fit(root, contents),
    ensures
        aligned(stream_bytes(archive_pieces(root, use_case_hack), contents).len()),
{
    let open = token(NAR_VERSION_MAGIC_1) + token("(");
    let inner = node_pieces(root, use_case_hack);
    lemma_node_aligned(root, use_case_hack, contents);
    lemma_framing_aligned(Seq::empty(), use_case_hack);
    lemma_stream_aligned_literal(open, contents);
    lemma_stream_aligned_literal(token(")"), contents);
    lemma_stream_aligned_add(literal(open), inner, contents);
    lemma_stream_aligned_add(literal(open) + inner, literal(token(")")), contents);
}

/// Writes what precedes the node of a directory entry.
fn write_entry_head(writer: &mut NarWriter, name: &[u8], use_case_hack: bool)
    ensures
        final(writer)@ == old(writer)@ + literal(entry_head(name@, use_case_hack)),
{
    let stripped = strip_case_hack_suffix(name, use_case_hack);
    let mut head: Vec<u8> = Vec::new();
    push_token(&mut head, "entry");
    push_token(&mut head, "(");
    push_token(&mut head, "name");
    push_unit(&mut head, stripped.as_slice());
    push_token(&mut head, "node");
    push_token(&mut head, "(");
    assert(head@ =~= entry_head(name@, use_case_hack));
    writer.write_bytes(head.as_slice());
}

/// Writes what follows the node of a directory entry.
fn write_entry_tail(writer: &mut NarWriter)
    ensures
        final(writer)@ == old(writer)@ + literal(entry_tail()),
{
    let mut tail: Vec<u8> = Vec::new();
    push_token(&mut tail, ")");
    push_token(&mut tail, ")");
    assert(tail@ =~= entry_tail());
    writer.write_bytes(tail.as_slice());
}

/// Writes `node` without the framing of a whole archive. The entries of a
/// directory are written in the order in which a well-formed tree holds
/// them: in byte order of the names that the filesystem gives them. With
/// `use_case_hack` those names are cut at the case marker as they are
/// written, after they were ordered.
pub fn dump_path_inner(writer: &mut NarWriter, node: &Node, use_case_hack: bool)
    requires
        node.wf(),
    ensures
        final(writer)@ == old(writer)@ + node_pieces(*node, use_case_hack),
    decreases *node,
{
    let mut head: Vec<u8> = Vec::new();
    push_token(&mut head, "type");
    match node {
        Node::Regular { executable, size, source } => {
            push_token(&mut head, "regular");
            if *executable {
                push_token(&mut head, "executable");
                push_token(&mut head, "");
            }
            push_token(&mut head, "contents");
            let length = length_bytes(*size);
            append_bytes(&mut head, length.as_slice());
            assert(head@ =~= regular_head(*executable, *size));
            writer.write_bytes(head.as_slice());
            writer.write_contents(source.as_slice(), *size);
            let mut tail: Vec<u8> = Vec::new();
            push_padding(&mut tail, *size);
            writer.write_bytes(tail.as_slice());
            assert(writer@ =~= old(writer)@ + node_pieces(*node, use_case_hack));
        },
        Node::Symlink { target } => {
            push_token(&mut head, "symlink");
            push_token(&mut head, "target");
            push_unit(&mut head, target.as_slice());
            assert(head@ =~= symlink_bytes(target@));
            writer.write_bytes(head.as_slice());
        },
        Node::Directory { entries } => {
            push_token(&mut head, "directory");
            assert(head@ =~= directory_head());
            writer.write_bytes(head.as_slice());
            let mut i: usize = 0;
            while i < entries.len()
                invariant
                    i <= entries.len(),
                    *node == (Node::Directory { entries: *entries }),
                    node.wf(),
                    writer@ == old(writer)@ + literal(directory_head()) + entries_pieces(
                        *node,
                        i as nat,
                        use_case_hack,
                    ),
                decreases entries.len() - i,
            {
                let entry = &entries[i];
                write_entry_head(writer, entry.name.as_slice(), use_case_hack);
                dump_path_inner(writer, &entry.node, use_case_hack);
                write_entry_tail(writer);
                proof {
                    lemma_entries_pieces_step(*node, i as nat, use_case_hack);
                    lemma_append_entry(
                        old(writer)@ + literal(directory_head()),
                        entries_pieces(*node, i as nat, use_case_hack),
                        literal(entry_head(entry.name@, use_case_hack)),
                        node_pieces(entry.node, use_case_hack),
                        literal(entry_tail()),
                    );
                }
                i = i + 1;
            }
        },
    }
}

/// Writes the archive of the well-formed tree rooted at `node`.
pub fn dump_path(writer: &mut NarWriter, node: &Node, use_case_hack: bool)
    requires
        node.wf(),
    ensures
        final(writer)@ == old(writer)@ + archive_pieces(*node, use_case_hack),
{
    let mut head: Vec<u8> = Vec::new();
    push_token(&mut head, NAR_VERSION_MAGIC_1);
    push_token(&mut head, "(");
    writer.write_bytes(head.as_slice());
    dump_path_inner(writer, node, use_case_hack);
    let mut tail: Vec<u8> = Vec::new();
    push_token(&mut tail, ")");
    writer.write_bytes(tail.as_slice());
    proof {
        lemma_append_framed(
            old(writer)@,
            literal(token(NAR_VERSION_MAGIC_1) + token("(")),
            node_pieces(*node, use_case_hack),
            literal(token(")")),
        );
    }
}

} // verus!
