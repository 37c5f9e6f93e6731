//! The text record that describes one archived store path.

use crate::hashing::sha256;
use crate::hashing::sha256_digest;
use crate::nix_base32::hash_to_nix_string;
use crate::nix_base32::nix_string;
use crate::nix_store::NixPathInfo;
use crate::nix_store::NixPathInfoView;
use crate::nix_store::option_view;
use crate::nix_store::views;
use crate::text::after_last;
use crate::text::chars;
use crate::text::decimal;
use crate::text::decimal_string;
use crate::text::join;
use crate::text::split_after_last;
use vstd::prelude::*;
use vstd::string::StringExecFns;

verus! {

/// The last segment of a path.
pub open spec fn basename(path: Seq<char>) -> Seq<char> {
    after_last(path, '/')
}

/// One line of a record.
pub open spec fn line(key: Seq<char>, value: Seq<char>) -> Seq<char> {
    key + ": "@ + value + "\n"@
}

/// A line that is written only where there is a value.
pub open spec fn optional_line(key: Seq<char>, value: Option<Seq<char>>) -> Seq<char> {
    match value {
        Some(value) => line(key, value),
        None => Seq::empty(),
    }
}

/// The last segments of `paths`, each after a space.
pub open spec fn spaced_basenames(paths: Seq<Seq<char>>) -> Seq<char>
    decreases paths.len(),
{
    if paths.len() == 0 {
        Seq::empty()
    } else {
        spaced_basenames(paths.drop_last()) + " "@ + basename(paths.last())
    }
}

/// The line of the references; no line where there are none.
pub open spec fn references_line(references: Seq<Seq<char>>) -> Seq<char> {
    if references.len() == 0 {
        Seq::empty()
    } else {
        "References:"@ + spaced_basenames(references) + "\n"@
    }
}

/// One `Sig` line for each signature.
pub open spec fn signature_lines(signatures: Seq<Seq<char>>) -> Seq<char>
    decreases signatures.len(),
{
    if signatures.len() == 0 {
        Seq::empty()
    } else {
        signature_lines(signatures.drop_last()) + line("Sig"@, signatures.last())
    }
}

/// The lines that every record begins with.
pub open spec fn head_lines(
    store_path: Seq<char>,
    url: Seq<char>,
    compression: Seq<char>,
    file_hash: Seq<char>,
    file_size: u64,
    nar_hash: Seq<char>,
    nar_size: u64,
) -> Seq<char> {
    line("StorePath"@, store_path) + line("URL"@, url) + line("Compression"@, compression) + line(
        "FileHash"@,
        file_hash,
    ) + line("FileSize"@, decimal(file_size as nat)) + line("NarHash"@, nar_hash) + line(
        "NarSize"@,
        decimal(nar_size as nat),
    )
}

/// Strings compared character by character.
pub open spec fn text_lt(a: Seq<char>, b: Seq<char>) -> bool
    decreases a.len(),
{
    if b.len() == 0 {
        false
    } else if a.len() == 0 {
        true
    } else if a[0] != b[0] {
        a[0] < b[0]
    } else {
        text_lt(a.drop_first(), b.drop_first())
    }
}

/// Whether each string comes before the next.
pub open spec fn ascending(strings: Seq<Seq<char>>) -> bool {
    forall|i: int| 0 <= i < strings.len() - 1 ==> text_lt(#[trigger] strings[i], strings[i + 1])
}

/// The record of one archived store path.
#[derive(Debug)]
pub struct NarInfo {
    pub store_path: String,
    pub url: String,
    pub compression: String,
    pub file_hash: String,
    pub file_size: u64,
    pub nar_hash: String,
    pub nar_size: u64,
    /// The store paths referred to; see `wf`.
    pub references: Vec<String>,
    pub deriver: Option<String>,
    pub system: Option<String>,
    pub sig: Option<String>,
    pub ca: Option<String>,
}

/// Appends one line.
fn push_line(text: &mut String, key: &str, value: &str)
    ensures
        final(text)@ == old(text)@ + line(key@, value@),
{
    text.append(key);
    text.append(": ");
    text.append(value);
    text.append("\n");
    assert(text@ =~= old(text)@ + line(key@, value@));
}

/// Appends the lines that every record begins with.
fn push_head(
    text: &mut String,
    store_path: &str,
    url: &str,
    compression: &str,
    file_hash: &str,
    file_size: u64,
    nar_hash: &str,
    nar_size: u64,
)
    ensures
        final(text)@ == old(text)@ + head_lines(
            store_path@,
            url@,
            compression@,
            file_hash@,
            file_size,
            nar_hash@,
            nar_size,
        ),
{
    push_line(text, "StorePath", store_path);
    push_line(text, "URL", url);
    push_line(text, "Compression", compression);
    push_line(text, "FileHash", file_hash);
    let file_size_text = decimal_string(file_size);
    push_line(text, "FileSize", file_size_text.as_str());
    push_line(text, "NarHash", nar_hash);
    let nar_size_text = decimal_string(nar_size);
    push_line(text, "NarSize", nar_size_text.as_str());
    assert(text@ =~= old(text)@ + head_lines(
        store_path@,
        url@,
        compression@,
        file_hash@,
        file_size,
        nar_hash@,
        nar_size,
    ));
}

/// Appends the line of the references, if there are any.
fn push_references(text: &mut String, references: &Vec<String>)
    ensures
        final(text)@ == old(text)@ + references_line(views(references@)),
{
    if references.len() == 0 {
        assert(text@ =~= old(text)@ + references_line(views(references@)));
        return ;
    }
    let mut list = String::from_str("References:");
    let mut i: usize = 0;
    while i < references.len()
        invariant
            i <= references.len(),
            list@ == "References:"@ + spaced_basenames(views(references@).take(i as int)),
        decreases references.len() - i,
    {
        list.append(" ");
        list.append(split_after_last(references[i].as_str(), '/'));
        i = i + 1;
        proof {
            let done = views(references@).take(i as int);
            assert(done.drop_last() =~= views(references@).take(i - 1));
            assert(done.last() == references@[i - 1]@);
            assert(list@ =~= "References:"@ + spaced_basenames(done));
        }
    }
    list.append("\n");
    text.append(list.as_str());
    proof {
        assert(views(references@).take(references.len() as int) =~= views(references@));
        assert(text@ =~= old(text)@ + references_line(views(references@)));
    }
}

/// Appends a line where there is a value.
fn push_optional(text: &mut String, key: &str, value: &Option<String>)
    ensures
        final(text)@ == old(text)@ + optional_line(key@, option_view(*value)),
{
    match value {
        Some(value) => {
            push_line(text, key, value.as_str());
        },
        None => {
            assert(text@ =~= old(text)@ + optional_line(key@, option_view(*value)));
        },
    }
}

/// Appends the line of the deriver, which names its last segment only.
fn push_deriver(text: &mut String, deriver: &Option<String>)
    ensures
        final(text)@ == old(text)@ + optional_line(
            "Deriver"@,
            match option_view(*deriver) {
                Some(path) => Some(basename(path)),
                None => None,
            },
        ),
{
    match deriver {
        Some(path) => {
            push_line(text, "Deriver", split_after_last(path.as_str(), '/'));
        },
        None => {
            assert(text@ =~= old(text)@ + Seq::<char>::empty());
        },
    }
}

/// Whether `a` comes before `b`.
fn string_lt(a: &str, b: &str) -> (r: bool)
    ensures
        r == text_lt(a@, b@),
{
    let av = chars(a);
    let bv = chars(b);
    let mut i: usize = 0;
    assert(av@.skip(0) == av@ && bv@.skip(0) == bv@);
    while i < av.len() && i < bv.len()
        invariant
            i <= av.len(),
            i <= bv.len(),
            av@ == a@,
            bv@ == b@,
            text_lt(av@, bv@) == text_lt(av@.skip(i as int), bv@.skip(i as int)),
        decreases av.len() - i,
    {
        assert(av@.skip(i as int).drop_first() == av@.skip(i + 1));
        assert(bv@.skip(i as int).drop_first() == bv@.skip(i + 1));
        if av[i] != bv[i] {
            return av[i] < bv[i];
        }
        i = i + 1;
    }
    i < bv.len()
}

impl NarInfo {
    /// Whether the record is in order: its references stand in ascending
    /// order, none twice.
    pub open spec fn wf(&self) -> bool {
        ascending(views(self.references@))
    }

    /// The text of the record: one line for each field that has a value.
    pub open spec fn text(&self) -> Seq<char> {
        head_lines(
            self.store_path@,
            self.url@,
            self.compression@,
            self.file_hash@,
            self.file_size,
            self.nar_hash@,
            self.nar_size,
        ) + references_line(views(self.references@)) + optional_line(
            "Deriver"@,
            match option_view(self.deriver) {
                Some(path) => Some(basename(path)),
                None => None,
            },
        ) + optional_line("System"@, option_view(self.system)) + optional_line(
            "Sig"@,
            option_view(self.sig),
        ) + optional_line("CA"@, option_view(self.ca))
    }

    /// The address under which the archive of `store_path` is kept.
    pub open spec fn url_of(store_path: Seq<char>, compression: Seq<char>) -> Seq<char> {
        "nar/"@ + basename(store_path) + ".nar"@ + (if compression == "none"@ {
            Seq::<char>::empty()
        } else {
            ".xz"@
        })
    }

    /// The record of `store_path` from the digests and lengths of its archive
    /// and of the archive's compressed form. It names no references.
    pub fn from_digests(
        store_path: String,
        nar_digest: &[u8],
        nar_size: u64,
        file_digest: &[u8],
        file_size: u64,
        compression: String,
    ) -> (info: NarInfo)
        requires
            nar_digest@.len() * 8 + 4 <= usize::MAX,
            file_digest@.len() * 8 + 4 <= usize::MAX,
        ensures
            info.store_path@ == store_path@,
            info.url@ == Self::url_of(store_path@, compression@),
            info.compression@ == compression@,
            info.file_hash@ == nix_string("sha256"@, file_digest@),
            info.file_size == file_size,
            info.nar_hash@ == nix_string("sha256"@, nar_digest@),
            info.nar_size == nar_size,
            info.wf(),
            info.references@.len() == 0,
            info.deriver is None,
            info.system is None,
            info.sig is None,
            info.ca is None,
    {
        let mut url = join("nar/", split_after_last(store_path.as_str(), '/'));
        url.append(".nar");
        let none = String::from_str("none");
        if compression != none {
            url.append(".xz");
        }
        assert(url@ =~= Self::url_of(store_path@, compression@));
        NarInfo {
            store_path,
            url,
            compression,
            file_hash: hash_to_nix_string("sha256", file_digest),
            file_size,
            nar_hash: hash_to_nix_string("sha256", nar_digest),
            nar_size,
            references: Vec::new(),
            deriver: None,
            system: None,
            sig: None,
            ca: None,
        }
    }

    /// The record of `store_path` from its archive and the archive's
    /// compressed form. It names no references.
    pub fn new(store_path: String, nar_data: &[u8], compressed_data: &[u8], compression: String) -> (info:
        NarInfo)
        ensures
            info.store_path@ == store_path@,
            info.url@ == Self::url_of(store_path@, compression@),
            info.compression@ == compression@,
            info.file_hash@ == nix_string("sha256"@, sha256_digest(compressed_data@)),
            info.file_size == compressed_data@.len(),
            info.nar_hash@ == nix_string("sha256"@, sha256_digest(nar_data@)),
            info.nar_size == nar_data@.len(),
            info.wf(),
            info.references@.len() == 0,
            info.deriver is None,
            info.system is None,
            info.sig is None,
            info.ca is None,
    {
        let nar_digest = sha256(nar_data);
        let file_digest = sha256(compressed_data);
        Self::from_digests(
            store_path,
            nar_digest.as_slice(),
            nar_data.len() as u64,
            file_digest.as_slice(),
            compressed_data.len() as u64,
            compression,
        )
    }

    /// Adds `reference` to the references, at its place in their order;
    /// a reference that is there already is not added again.
    pub fn add_reference(&mut self, reference: String) -> (added: bool)
        requires
            old(self).wf(),
        ensures
            final(self).wf(),
            added == !views(old(self).references@).contains(reference@),
            views(final(self).references@).to_set() == views(old(self).references@).to_set().insert(
                reference@,
            ),
            !added ==> views(final(self).references@) == views(old(self).references@),
            final(self).store_path == old(self).store_path,
            final(self).url == old(self).url,
            final(self).compression == old(self).compression,
            final(self).file_hash == old(self).file_hash,
            final(self).file_size == old(self).file_size,
            final(self).nar_hash == old(self).nar_hash,
            final(self).nar_size == old(self).nar_size,
            final(self).deriver == old(self).deriver,
            final(self).system == old(self).system,
            final(self).sig == old(self).sig,
            final(self).ca == old(self).ca,
    {
        let ghost before = views(self.references@);
        let mut at: usize = 0;
        while at < self.references.len() && string_lt(
            self.references[at].as_str(),
            reference.as_str(),
        )
            invariant
                at <= self.references.len(),
                self.references == old(self).references,
                before == views(self.references@),
                forall|k: int| 0 <= k < at ==> text_lt(#[trigger] before[k], reference@),
            decreases self.references.len() - at,
        {
            at = at + 1;
        }
        if at < self.references.len() && self.references[at] == reference {
            assert(before[at as int] == reference@);
            assert(before.to_set().insert(reference@) =~= before.to_set());
            return false;
        }
        proof {
            lemma_ascending_insert(before, reference@, at as int);
            assert(views(self.references@.insert(at as int, reference)) =~= before.insert(
                at as int,
                reference@,
            ));
        }
        self.references.insert(at, reference);
        true
    }

    /// Whether the record is in order.
    pub fn is_wf(&self) -> (ok: bool)
        ensures
            ok == self.wf(),
    {
        let ghost references = views(self.references@);
        let mut i: usize = 1;
        while i < self.references.len()
            invariant
                1 <= i,
                references == views(self.references@),
                forall|k: int|
                    0 <= k < i - 1 && k < references.len() - 1 ==> text_lt(
                        #[trigger] references[k],
                        references[k + 1],
                    ),
            decreases self.references.len() - i,
        {
            if !string_lt(self.references[i - 1].as_str(), self.references[i].as_str()) {
                assert(!text_lt(references[i - 1], references[i - 1 + 1]));
                return false;
            }
            i = i + 1;
        }
        true
    }

    /// The text of a record that is in order.
    pub fn to_string(&self) -> (text: String)
        requires
            self.wf(),
        ensures
            text@ == self.text(),
    {
        let mut text = String::new();
        push_head(
            &mut text,
            self.store_path.as_str(),
            self.url.as_str(),
            self.compression.as_str(),
            self.file_hash.as_str(),
            self.file_size,
            self.nar_hash.as_str(),
            self.nar_size,
        );
        push_references(&mut text, &self.references);
        push_deriver(&mut text, &self.deriver);
        push_optional(&mut text, "System", &self.system);
        push_optional(&mut text, "Sig", &self.sig);
        push_optional(&mut text, "CA", &self.ca);
        assert(text@ =~= self.text());
        text
    }
}

/// The order of strings is strict and total.
pub proof fn lemma_text_lt_total(a: Seq<char>, b: Seq<char>)
    ensures
        text_lt(a, b) || text_lt(b, a) || a == b,
        !(text_lt(a, b) && text_lt(b, a)),
        !text_lt(a, a),
    decreases a.len(),
{
    if a.len() > 0 && b.len() > 0 && a[0] == b[0] {
        lemma_text_lt_total(a.drop_first(), b.drop_first());
        assert(a =~= seq![a[0]] + a.drop_first());
        assert(b =~= seq![b[0]] + b.drop_first());
    } else if a.len() == 0 && b.len() == 0 {
        assert(a =~= b);
    }
    if a.len() > 0 {
        lemma_text_lt_total(a.drop_first(), a.drop_first());
    }
}

/// The order of strings is transitive.
pub proof fn lemma_text_lt_transitive(a: Seq<char>, b: Seq<char>, c: Seq<char>)
    requires
        text_lt(a, b),
        text_lt(b, c),
    ensures
        text_lt(a, c),
    decreases a.len(),
{
    if a.len() > 0 && a[0] == b[0] && b[0] == c[0] {
        lemma_text_lt_transitive(a.drop_first(), b.drop_first(), c.drop_first());
    }
}

/// In ascending strings, the earlier comes before the later.
proof fn lemma_ascending_pairs(strings: Seq<Seq<char>>, i: int, j: int)
    requires
        ascending(strings),
        0 <= i < j < strings.len(),
    ensures
        text_lt(strings[i], strings[j]),
    decreases j - i,
{
    if i + 1 < j {
        lemma_ascending_pairs(strings, i, j - 1);
        assert(text_lt(strings[j - 1], strings[j - 1 + 1]));
        lemma_text_lt_transitive(strings[i], strings[j - 1], strings[j]);
    }
}

/// A string put between those before it and those not before it keeps the
/// order, and was not there.
proof fn lemma_ascending_insert(strings: Seq<Seq<char>>, s: Seq<char>, at: int)
    requires
        ascending(strings),
        0 <= at <= strings.len(),
        forall|k: int| 0 <= k < at ==> text_lt(#[trigger] strings[k], s),
        at < strings.len() ==> !text_lt(strings[at], s) && strings[at] != s,
    ensures
        ascending(strings.insert(at, s)),
        !strings.contains(s),
        strings.insert(at, s).to_set() == strings.to_set().insert(s),
{
    let result = strings.insert(at, s);
    if at < strings.len() {
        lemma_text_lt_total(strings[at], s);
    }
    assert forall|i: int| 0 <= i < result.len() - 1 implies text_lt(
        #[trigger] result[i],
        result[i + 1],
    ) by {
        if i + 1 < at {
            assert(text_lt(strings[i], strings[i + 1]));
        } else if i + 1 == at {
        } else if i == at {
        } else {
            assert(text_lt(strings[i - 1], strings[i - 1 + 1]));
        }
    }
    assert forall|k: int| 0 <= k < strings.len() implies strings[k] != s by {
        lemma_text_lt_total(strings[k], s);
        if k > at {
            lemma_ascending_pairs(strings, at, k);
            lemma_text_lt_total(s, strings[k]);
            lemma_text_lt_transitive(s, strings[at], strings[k]);
        }
    }
    assert(result.to_set() =~= strings.to_set().insert(s)) by {
        assert forall|x: Seq<char>| result.to_set().contains(x) <==> strings.to_set().insert(
            s,
        ).contains(x) by {
            if result.contains(x) {
                let i = choose|i: int| 0 <= i < result.len() && result[i] == x;
                if i < at {
                    assert(strings[i] == x);
                } else if i > at {
                    assert(strings[i - 1] == x);
                }
            }
            if strings.contains(x) {
                let i = choose|i: int| 0 <= i < strings.len() && strings[i] == x;
                if i < at {
                    assert(result[i] == x);
                } else {
                    assert(result[i + 1] == x);
                }
            }
            if x == s {
                assert(result[at] == x);
            }
        }
    }
}

/// The text of the record of `path_info`, whose archive is kept compressed
/// under `nar_filename` with the given length and digest.
pub open spec fn narinfo_text(
    path_info: NixPathInfoView,
    nar_filename: Seq<char>,
    compressed_size: u64,
    file_hash: Seq<char>,
) -> Seq<char> {
    head_lines(
        path_info.path,
        "nar/"@ + nar_filename,
        "zstd"@,
        file_hash,
        compressed_size,
        path_info.nar_hash,
        path_info.nar_size,
    ) + references_line(path_info.references) + optional_line(
        "Deriver"@,
        match path_info.deriver {
            Some(path) => Some(basename(path)),
            None => None,
        },
    ) + (match path_info.signatures {
        Some(signatures) => signature_lines(signatures),
        None => Seq::empty(),
    }) + optional_line("CA"@, path_info.ca)
}

/// Appends one `Sig` line for each signature.
fn push_signatures(text: &mut String, signatures: &Vec<String>)
    ensures
        final(text)@ == old(text)@ + signature_lines(views(signatures@)),
{
    let mut i: usize = 0;
    assert(text@ =~= old(text)@ + signature_lines(views(signatures@).take(0)));
    while i < signatures.len()
        invariant
            i <= signatures.len(),
            text@ == old(text)@ + signature_lines(views(signatures@).take(i as int)),
        decreases signatures.len() - i,
    {
        push_line(text, "Sig", signatures[i].as_str());
        i = i + 1;
        proof {
            let done = views(signatures@).take(i as int);
            assert(done.drop_last() =~= views(signatures@).take(i - 1));
            assert(done.last() == signatures@[i - 1]@);
            assert(text@ =~= old(text)@ + signature_lines(done));
        }
    }
    assert(views(signatures@).take(signatures.len() as int) =~= views(signatures@));
}

/// The record of a store path whose archive was compressed with zstd: the
/// path, where the archive is kept, the digest and length of the compressed
/// and of the uncompressed archive, the last segments of the references
/// (no line where there are none) and of the deriver, each signature, and
/// the content address.
pub fn create_narinfo(
    path_info: &NixPathInfo,
    nar_filename: &str,
    compressed_size: u64,
    file_hash: &str,
) -> (text: String)
    ensures
        text@ == narinfo_text(path_info@, nar_filename@, compressed_size, file_hash@),
{
    let mut text = String::new();
    let url = join("nar/", nar_filename);
    push_head(
        &mut text,
        path_info.path.as_str(),
        url.as_str(),
        "zstd",
        file_hash,
        compressed_size,
        path_info.nar_hash.as_str(),
        path_info.nar_size,
    );
    push_references(&mut text, &path_info.references);
    push_deriver(&mut text, &path_info.deriver);
    match &path_info.signatures {
        Some(signatures) => {
            push_signatures(&mut text, signatures);
        },
        None => {
            assert(text@ =~= text@ + Seq::<char>::empty());
        },
    }
    push_optional(&mut text, "CA", &path_info.ca);
    assert(text@ =~= narinfo_text(path_info@, nar_filename@, compressed_size, file_hash@));
    text
}

} // verus!
