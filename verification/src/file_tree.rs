//! The pure rules of the directory-tree lister: which entry names are
//! skipped, how deep the walk may go, and the order in which a directory's
//! children are presented — all subdirectories before all files, each group
//! sorted case-insensitively by name.
//!
//! The filesystem walk itself is the owner's job; it hands each directory's
//! raw entry list to [`arrange_children`] and builds [`FileTreeNode`]s from
//! what comes back.

use vstd::multiset::Multiset;
use vstd::prelude::*;
use vstd::string::StringSliceAdditionalSpecFns;
use vstd::utf8::{encode_utf8, encode_scalar, char_is_scalar, char_u32_cast};

verus! {

/// One node of the reported tree: `children` is `None` for files and for
/// directories beyond the depth bound.
pub struct FileTreeNode {
    pub name: String,
    pub path: String,
    pub is_dir: bool,
    pub children: Option<Vec<FileTreeNode>>,
}

/// The lister's reply: the resolved root with its expanded children.
pub struct FileTreeResponse {
    pub root: FileTreeNode,
}

/// A raw directory entry as read from the filesystem, before filtering and
/// ordering.
pub struct DirEntry {
    pub name: String,
    pub is_dir: bool,
}

impl Clone for DirEntry {
    fn clone(&self) -> (r: DirEntry)
        ensures
            r == *self,
    {
        DirEntry { name: self.name.clone(), is_dir: self.is_dir }
    }
}

/// A name is hidden when it starts with a dot.
pub open spec fn hidden_name(s: Seq<char>) -> bool {
    s.len() > 0 && s[0] == '.'
}

/// A name is skipped when it is hidden (and hidden names are not asked for)
/// or is one of the excluded bulk directories.
pub open spec fn skip_spec(name: Seq<char>, include_hidden: bool, excludes: Seq<String>) -> bool {
    (!include_hidden && hidden_name(name)) || (exists|i: int|
        0 <= i < excludes.len() && excludes[i]@ == name)
}

// Relates the first byte of a UTF-8 encoding to its first character: a
// one-byte scalar is its own byte, and every longer encoding leads with a
// byte at or above 0xc2, so a leading dot is visible in byte zero.
proof fn lemma_first_byte_dot(chars: Seq<char>)
    ensures
        encode_utf8(chars).len() > 0 <==> chars.len() > 0,
        chars.len() > 0 ==> (encode_utf8(chars)[0] == 0x2e <==> chars[0] == '.'),
{
    if chars.len() > 0 {
        let c = chars[0] as u32;
        char_is_scalar(chars[0]);
        char_u32_cast(chars[0], c);
        assert(encode_scalar(c).len() > 0);
        assert(encode_utf8(chars)[0] == encode_scalar(c)[0]);
        if c <= 0x7f {
            assert(((c & 0x7f) as u8) == 0x2e <==> c == 0x2e) by (bit_vector)
                requires
                    c <= 0x7f,
            ;
            assert(('.' as u32) == 0x2e);
            char_u32_cast('.', '.' as u32);
        } else {
            assert((0xC0u8 | (((c >> 6) & 0x1F) as u8)) != 0x2e) by (bit_vector);
            assert((0xE0u8 | (((c >> 12) & 0x0F) as u8)) != 0x2e) by (bit_vector);
            assert((0xF0u8 | (((c >> 18) & 0x7) as u8)) != 0x2e) by (bit_vector);
        }
    }
}

/// Whether a name is hidden (dot-prefixed).
pub fn is_hidden_name(name: &str) -> (r: bool)
    ensures
        r == hidden_name(name@),
{
    let b = name.as_bytes();
    proof {
        lemma_first_byte_dot(name@);
    }
    b.len() > 0 && b[0] == 0x2e
}

fn str_eq(a: &str, b: &str) -> (r: bool)
    ensures
        r == (a@ == b@),
{
    let ab = a.as_bytes();
    let bb = b.as_bytes();
    if ab.len() != bb.len() {
        return false;
    }
    let mut i: usize = 0;
    while i < ab.len()
        invariant
            i <= ab@.len(),
            ab@.len() == bb@.len(),
            ab@ == a.spec_bytes(),
            bb@ == b.spec_bytes(),
            forall|j: int| 0 <= j < i ==> ab@[j] == bb@[j],
        decreases ab@.len() - i,
    {
        if ab[i] != bb[i] {
            return false;
        }
        i = i + 1;
    }
    proof {
        assert(a.spec_bytes() =~= b.spec_bytes());
        vstd::utf8::encode_utf8_decode_utf8(a@);
        vstd::utf8::encode_utf8_decode_utf8(b@);
    }
    true
}

/// Whether a directory entry name is left out of the listing.
pub fn should_skip_name(name: &str, include_hidden: bool, excludes: &Vec<String>) -> (r: bool)
    ensures
        r == skip_spec(name@, include_hidden, excludes@),
{
    if !include_hidden && is_hidden_name(name) {
        return true;
    }
    let mut i: usize = 0;
    while i < excludes.len()
        invariant
            i <= excludes@.len(),
            forall|j: int| 0 <= j < i ==> excludes@[j]@ != name@,
        decreases excludes@.len() - i,
    {
        if str_eq(excludes[i].as_str(), name) {
            return true;
        }
        i = i + 1;
    }
    false
}

/// The directories whose contents are never listed: version-control
/// metadata and dependency or build output.
pub fn default_excludes() -> (r: Vec<String>)
    ensures
        r@.len() == 7,
        r@[0]@ == ".git"@,
        r@[1]@ == "node_modules"@,
        r@[2]@ == "target"@,
        r@[3]@ == "dist"@,
        r@[4]@ == "build"@,
        r@[5]@ == ".next"@,
        r@[6]@ == ".cache"@,
{
    let mut r: Vec<String> = Vec::new();
    r.push(".git".to_owned());
    r.push("node_modules".to_owned());
    r.push("target".to_owned());
    r.push("dist".to_owned());
    r.push("build".to_owned());
    r.push(".next".to_owned());
    r.push(".cache".to_owned());
    r
}

/// The walk depth a request resolves to: three levels by default, clamped
/// into one through six.
pub open spec fn clamped_depth(d: Option<usize>) -> int {
    match d {
        Option::None => 3,
        Option::Some(n) => if n < 1 {
            1
        } else if n > 6 {
            6
        } else {
            n as int
        },
    }
}

/// Resolves the requested maximum depth.
pub fn clamp_depth(max_depth: Option<usize>) -> (r: usize)
    ensures
        r as int == clamped_depth(max_depth),
{
    match max_depth {
        Option::None => 3,
        Option::Some(n) => if n < 1 {
            1
        } else if n > 6 {
            6
        } else {
            n
        },
    }
}

/// Case-folds a name for ordering.
pub uninterp spec fn folded_of(s: Seq<char>) -> Seq<u8>;

/// Relies on `str::to_lowercase`: the lowercase equivalent of a string,
/// a function of its characters alone.
#[verifier::external_body]
fn fold_name(s: &str) -> (r: Vec<u8>)
    ensures
        r@ == folded_of(s@),
{
    s.to_lowercase().into_bytes()
}

/// Byte-wise lexicographic order.
pub open spec fn lex_le(a: Seq<u8>, b: Seq<u8>) -> bool
    decreases a.len(),
{
    if a.len() == 0 {
        true
    } else if b.len() == 0 {
        false
    } else if a[0] < b[0] {
        true
    } else if a[0] > b[0] {
        false
    } else {
        lex_le(a.drop_first(), b.drop_first())
    }
}

proof fn lemma_lex_total(a: Seq<u8>, b: Seq<u8>)
    ensures
        lex_le(a, b) || lex_le(b, a),
    decreases a.len(),
{
    if a.len() > 0 && b.len() > 0 && a[0] == b[0] {
        lemma_lex_total(a.drop_first(), b.drop_first());
    }
}

proof fn lemma_lex_trans(a: Seq<u8>, b: Seq<u8>, c: Seq<u8>)
    requires
        lex_le(a, b),
        lex_le(b, c),
    ensures
        lex_le(a, c),
    decreases a.len(),
{
    if a.len() > 0 && b.len() > 0 && c.len() > 0 && a[0] == b[0] && b[0] == c[0] {
        lemma_lex_trans(a.drop_first(), b.drop_first(), c.drop_first());
    }
}

proof fn lemma_lex_skip(a: Seq<u8>, b: Seq<u8>, i: int)
    requires
        0 <= i <= a.len(),
        i <= b.len(),
        forall|j: int| 0 <= j < i ==> a[j] == b[j],
    ensures
        lex_le(a, b) == lex_le(a.skip(i), b.skip(i)),
    decreases i,
{
    if i == 0 {
        assert(a.skip(0) =~= a);
        assert(b.skip(0) =~= b);
    } else {
        assert(a.len() > 0 && b.len() > 0 && a[0] == b[0]);
        lemma_lex_skip(a.drop_first(), b.drop_first(), i - 1);
        assert(a.drop_first().skip(i - 1) =~= a.skip(i));
        assert(b.drop_first().skip(i - 1) =~= b.skip(i));
    }
}

fn bytes_le(a: &Vec<u8>, b: &Vec<u8>) -> (r: bool)
    ensures
        r == lex_le(a@, b@),
{
    let mut i: usize = 0;
    while i < a.len() && i < b.len()
        invariant
            i <= a@.len(),
            i <= b@.len(),
            forall|j: int| 0 <= j < i ==> a@[j] == b@[j],
        decreases a@.len() - i,
    {
        if a[i] < b[i] {
            proof {
                lemma_lex_skip(a@, b@, i as int);
            }
            return true;
        }
        if a[i] > b[i] {
            proof {
                lemma_lex_skip(a@, b@, i as int);
            }
            return false;
        }
        i = i + 1;
    }
    proof {
        lemma_lex_skip(a@, b@, i as int);
    }
    a.len() == i
}

/// The presentation order of directory children: directories strictly before
/// files, and within each group case-insensitive name order.
pub open spec fn entry_le(a: DirEntry, b: DirEntry) -> bool {
    if a.is_dir != b.is_dir {
        a.is_dir
    } else {
        lex_le(folded_of(a.name@), folded_of(b.name@))
    }
}

proof fn lemma_entry_le_total(a: DirEntry, b: DirEntry)
    ensures
        entry_le(a, b) || entry_le(b, a),
{
    if a.is_dir == b.is_dir {
        lemma_lex_total(folded_of(a.name@), folded_of(b.name@));
    }
}

proof fn lemma_entry_le_trans(a: DirEntry, b: DirEntry, c: DirEntry)
    requires
        entry_le(a, b),
        entry_le(b, c),
    ensures
        entry_le(a, c),
{
    if a.is_dir == b.is_dir && b.is_dir == c.is_dir {
        lemma_lex_trans(folded_of(a.name@), folded_of(b.name@), folded_of(c.name@));
    }
}

/// A child list in presentation order.
pub open spec fn entries_sorted(s: Seq<DirEntry>) -> bool {
    forall|i: int, j: int| 0 <= i < j < s.len() ==> entry_le(s[i], s[j])
}

fn entry_le_exec(a: &DirEntry, b: &DirEntry) -> (r: bool)
    ensures
        r == entry_le(*a, *b),
{
    if a.is_dir != b.is_dir {
        a.is_dir
    } else {
        let fa = fold_name(a.name.as_str());
        let fb = fold_name(b.name.as_str());
        bytes_le(&fa, &fb)
    }
}

fn insert_sorted(out: &mut Vec<DirEntry>, e: DirEntry)
    requires
        entries_sorted(old(out)@),
    ensures
        entries_sorted(final(out)@),
        final(out)@.to_multiset() == old(out)@.to_multiset().insert(e),
{
    broadcast use vstd::seq_lib::to_multiset_insert;

    let mut j: usize = 0;
    while j < out.len() && entry_le_exec(&out[j], &e)
        invariant
            j <= out@.len(),
            out@ == old(out)@,
            forall|k: int| 0 <= k < j ==> entry_le(out@[k], e),
        decreases out@.len() - j,
    {
        j = j + 1;
    }
    proof {
        assert forall|k: int| j <= k < out@.len() implies entry_le(e, out@[k]) by {
            lemma_entry_le_total(out@[j as int], e);
            if k > j {
                lemma_entry_le_trans(e, out@[j as int], out@[k]);
            }
        }
    }
    let ghost pre = out@;
    out.insert(j, e);
    proof {
        assert forall|a: int, b: int|
            0 <= a < b < out@.len() implies entry_le(out@[a], out@[b]) by {
            if a < j && b < j {
                assert(out@[a] == pre[a] && out@[b] == pre[b]);
            } else if a < j && b == j {
            } else if a < j && b > j {
                assert(out@[b] == pre[b - 1]);
            } else if a == j {
                if b > j {
                    assert(out@[b] == pre[b - 1]);
                }
            } else {
                assert(out@[a] == pre[a - 1] && out@[b] == pre[b - 1]);
            }
        }
    }
}

/// Sorts directory entries into presentation order: the result is a
/// permutation of the input with all directories before all files, each
/// group in case-insensitive name order.
pub fn order_entries(entries: Vec<DirEntry>) -> (r: Vec<DirEntry>)
    ensures
        r@.to_multiset() == entries@.to_multiset(),
        entries_sorted(r@),
        forall|i: int, j: int| 0 <= i < j < r@.len() && r@[j].is_dir ==> r@[i].is_dir,
{
    broadcast use vstd::seq_lib::group_to_multiset_ensures;

    let mut src = entries;
    let mut out: Vec<DirEntry> = Vec::new();
    proof {
        assert(out@.to_multiset().add(src@.to_multiset()) =~= src@.to_multiset());
    }
    while src.len() > 0
        invariant
            entries_sorted(out@),
            out@.to_multiset().add(src@.to_multiset()) == entries@.to_multiset(),
        decreases src@.len(),
    {
        let ghost pre_src = src@;
        match src.pop() {
            Some(e) => {
                proof {
                    assert(pre_src.drop_last().push(e) =~= pre_src);
                    vstd::seq_lib::to_multiset_build(pre_src.drop_last(), e);
                    assert(pre_src.drop_last().to_multiset().insert(e)
                        =~= pre_src.to_multiset());
                }
                let ghost pre_out = out@;
                insert_sorted(&mut out, e);
                proof {
                    assert(out@.to_multiset().add(src@.to_multiset())
                        =~= pre_out.to_multiset().add(pre_src.to_multiset()));
                }
            },
            None => {},
        }
    }
    proof {
        assert(src@.to_multiset() =~= Multiset::<DirEntry>::empty());
        assert(out@.to_multiset() =~= entries@.to_multiset());
        assert forall|i: int, j: int|
            0 <= i < j < out@.len() && out@[j].is_dir implies out@[i].is_dir by {
            assert(entry_le(out@[i], out@[j]));
        }
    }
    out
}

/// The kept children of a directory, in reading order: every entry whose
/// name is not skipped.
pub open spec fn kept_of(s: Seq<DirEntry>, include_hidden: bool, excludes: Seq<String>) -> Seq<
    DirEntry,
>
    decreases s.len(),
{
    if s.len() == 0 {
        Seq::empty()
    } else {
        let rest = kept_of(s.drop_last(), include_hidden, excludes);
        if !skip_spec(s.last().name@, include_hidden, excludes) {
            rest.push(s.last())
        } else {
            rest
        }
    }
}

/// Filters and orders one directory's raw entries: exactly the non-skipped
/// entries survive, and they come back with all subdirectories before all
/// files, both groups sorted case-insensitively by name.
pub fn arrange_children(
    entries: &Vec<DirEntry>,
    include_hidden: bool,
    excludes: &Vec<String>,
) -> (r: Vec<DirEntry>)
    ensures
        r@.to_multiset() == kept_of(entries@, include_hidden, excludes@).to_multiset(),
        entries_sorted(r@),
        forall|i: int, j: int| 0 <= i < j < r@.len() && r@[j].is_dir ==> r@[i].is_dir,
{
    let mut kept: Vec<DirEntry> = Vec::new();
    let mut i: usize = 0;
    while i < entries.len()
        invariant
            i <= entries@.len(),
            kept@ == kept_of(entries@.take(i as int), include_hidden, excludes@),
        decreases entries@.len() - i,
    {
        let keep = !should_skip_name(entries[i].name.as_str(), include_hidden, excludes);
        proof {
            assert(entries@.take(i as int + 1).drop_last() =~= entries@.take(i as int));
            assert(entries@.take(i as int + 1).last() == entries@[i as int]);
        }
        if keep {
            let e = entries[i].clone();
            kept.push(e);
        }
        i = i + 1;
    }
    proof {
        assert(entries@.take(entries@.len() as int) =~= entries@);
    }
    order_entries(kept)
}

} // verus!
