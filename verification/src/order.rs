//! Ordering of listing results: a lexicographic order on character
//! sequences, the case-insensitive listing order built on it (with
//! raw-order tie-breaking among case-equal names), and the sorts that
//! make a directory record deterministic for identical contents
//! regardless of the host's enumeration order.

use vstd::prelude::*;
use vstd::seq_lib::lemma_multiset_commutative;
use vstd::string::StrSliceExecFns;
use crate::model::Directory;
use crate::model::File;

verus! {

/// Lexicographic "less or equal" on character sequences, comparing
/// scalar values position by position; a proper prefix precedes its
/// extensions.
pub open spec fn lex_le(a: Seq<char>, b: Seq<char>) -> bool
    decreases a.len(),
{
    if a.len() == 0 {
        true
    } else if b.len() == 0 {
        false
    } else if (a[0] as u32) < (b[0] as u32) {
        true
    } else if (a[0] as u32) > (b[0] as u32) {
        false
    } else {
        lex_le(a.skip(1), b.skip(1))
    }
}

pub proof fn lemma_lex_le_total(a: Seq<char>, b: Seq<char>)
    ensures
        lex_le(a, b) || lex_le(b, a),
    decreases a.len(),
{
    if a.len() == 0 || b.len() == 0 {
    } else if (a[0] as u32) == (b[0] as u32) {
        lemma_lex_le_total(a.skip(1), b.skip(1));
    }
}

pub proof fn lemma_lex_le_trans(a: Seq<char>, b: Seq<char>, c: Seq<char>)
    requires
        lex_le(a, b),
        lex_le(b, c),
    ensures
        lex_le(a, c),
    decreases a.len(),
{
    if a.len() == 0 {
    } else {
        if (a[0] as u32) == (b[0] as u32) && (b[0] as u32) == (c[0] as u32) {
            lemma_lex_le_trans(a.skip(1), b.skip(1), c.skip(1));
        }
    }
}

/// The two order facts above, quantified, for use inside sort proofs.
pub proof fn lemma_lex_le_props()
    ensures
        forall|a: Seq<char>, b: Seq<char>| #[trigger] lex_le(a, b) || lex_le(b, a),
        forall|a: Seq<char>, b: Seq<char>, c: Seq<char>|
            lex_le(a, b) && #[trigger] lex_le(b, c) ==> #[trigger] lex_le(a, c),
{
    assert forall|a: Seq<char>, b: Seq<char>| #[trigger] lex_le(a, b) || lex_le(b, a) by {
        lemma_lex_le_total(a, b);
    }
    assert forall|a: Seq<char>, b: Seq<char>, c: Seq<char>|
        lex_le(a, b) && #[trigger] lex_le(b, c) implies #[trigger] lex_le(a, c) by {
        lemma_lex_le_trans(a, b, c);
    }
}

/// Executable form of `lex_le`.
pub fn lex_le_str(a: &str, b: &str) -> (r: bool)
    ensures
        r == lex_le(a@, b@),
    decreases a@.len(),
{
    let alen = a.unicode_len();
    let blen = b.unicode_len();
    if alen == 0 {
        true
    } else if blen == 0 {
        false
    } else {
        let ca = a.get_char(0);
        let cb = b.get_char(0);
        if (ca as u32) < (cb as u32) {
            true
        } else if (ca as u32) > (cb as u32) {
            false
        } else {
            let at = a.substring_char(1, alen);
            let bt = b.substring_char(1, blen);
            proof {
                assert(at@ =~= a@.skip(1));
                assert(bt@ =~= b@.skip(1));
            }
            lex_le_str(at, bt)
        }
    }
}

/// Under `lex_le` mutual precedence is equality.
pub proof fn lemma_lex_le_antisym(a: Seq<char>, b: Seq<char>)
    requires
        lex_le(a, b),
        lex_le(b, a),
    ensures
        a == b,
    decreases a.len(),
{
    if a.len() == 0 {
        assert(b.len() == 0);
        assert(a =~= b);
    } else {
        assert(b.len() > 0);
        lemma_lex_le_antisym(a.skip(1), b.skip(1));
        let u: u32 = a[0] as u32;
        vstd::utf8::char_u32_cast(a[0], u);
        vstd::utf8::char_u32_cast(b[0], u);
        assert(a[0] == b[0]);
        assert(a.len() == b.len());
        assert forall|i: int| 0 <= i < a.len() implies a[i] == b[i] by {
            if i >= 1 {
                assert(a.skip(1)[i - 1] == a[i]);
                assert(b.skip(1)[i - 1] == b[i]);
            }
        }
        assert(a =~= b);
    }
}

/// The case folding that the host's lowercase conversion performs; it
/// depends on the characters of the string alone.
pub uninterp spec fn lower_of(s: Seq<char>) -> Seq<char>;

/// Relies on str::to_lowercase: the lowercase equivalent of the
/// string, a function of its characters alone.
#[verifier::external_body]
fn lowercase(s: &str) -> (r: String)
    ensures
        r@ == lower_of(s@),
{
    s.to_lowercase()
}

/// Case-insensitive lexicographic "less or equal": the lexicographic
/// order of the lowercase forms.
pub open spec fn ci_le(a: Seq<char>, b: Seq<char>) -> bool {
    lex_le(lower_of(a), lower_of(b))
}

/// The listing order of names: case-insensitive, with a tie among
/// case-equal names broken by the raw character order, so that the
/// order of a listing is deterministic for identical contents
/// whatever order the host enumerated them in.
pub open spec fn name_le(a: Seq<char>, b: Seq<char>) -> bool {
    if lower_of(a) == lower_of(b) {
        lex_le(a, b)
    } else {
        ci_le(a, b)
    }
}

/// `name_le` is a total order: total, transitive, and mutual
/// precedence only between case-equal names in raw order.
pub proof fn lemma_name_le_props()
    ensures
        forall|a: Seq<char>, b: Seq<char>| #[trigger] name_le(a, b) || name_le(b, a),
        forall|a: Seq<char>, b: Seq<char>, c: Seq<char>|
            name_le(a, b) && #[trigger] name_le(b, c) ==> #[trigger] name_le(a, c),
{
    lemma_lex_le_props();
    assert forall|a: Seq<char>, b: Seq<char>, c: Seq<char>|
        name_le(a, b) && #[trigger] name_le(b, c) implies #[trigger] name_le(a, c) by {
        let la = lower_of(a);
        let lb = lower_of(b);
        let lc = lower_of(c);
        if la != lb && lb != lc && la == lc {
            // lex_le(la, lb) and lex_le(lb, lc) == lex_le(lb, la):
            // mutual precedence would make la and lb equal.
            lemma_lex_le_antisym(la, lb);
        }
    }
}

/// Executable form of `name_le`, folding case exactly where the
/// comparison is made.
pub fn name_le_str(a: &str, b: &str) -> (r: bool)
    ensures
        r == name_le(a@, b@),
{
    let la = lowercase(a);
    let lb = lowercase(b);
    if la == lb {
        lex_le_str(a, b)
    } else {
        lex_le_str(la.as_str(), lb.as_str())
    }
}

/// The key sequence is sorted under `name_le`.
pub open spec fn sorted_names(keys: Seq<Seq<char>>) -> bool {
    forall|i: int, j: int|
        0 <= i <= j < keys.len() ==> #[trigger] name_le(keys[i], keys[j])
}

/// The key sequence is sorted under `lex_le`.
pub open spec fn sorted_lex(keys: Seq<Seq<char>>) -> bool {
    forall|i: int, j: int|
        0 <= i <= j < keys.len() ==> #[trigger] lex_le(keys[i], keys[j])
}

/// Inserting an element into a sequence inserts it into the
/// sequence's multiset.
proof fn lemma_to_multiset_insert<A>(s: Seq<A>, j: int, x: A)
    requires
        0 <= j <= s.len(),
    ensures
        s.insert(j, x).to_multiset() =~= s.to_multiset().insert(x),
{
    broadcast use vstd::seq_lib::group_to_multiset_ensures;

    let pre = s.subrange(0, j);
    let post = s.subrange(j, s.len() as int);
    assert(s =~= pre + post);
    lemma_multiset_commutative(pre, post);
    lemma_multiset_commutative(pre.push(x), post);
}

/// Inserting `x` just before the first key that does not precede it
/// keeps a `name_le`-sorted key sequence sorted.
proof fn lemma_sorted_name_insert(keys: Seq<Seq<char>>, j: int, x: Seq<char>)
    requires
        sorted_names(keys),
        0 <= j <= keys.len(),
        forall|k: int| 0 <= k < j ==> name_le(#[trigger] keys[k], x),
        j < keys.len() ==> !name_le(keys[j], x),
    ensures
        sorted_names(keys.insert(j, x)),
{
    lemma_name_le_props();
    keys.insert_ensures(j, x);
    let keys2 = keys.insert(j, x);
    assert forall|i: int, m: int| 0 <= i <= m < keys2.len() implies #[trigger] name_le(
        keys2[i],
        keys2[m],
    ) by {
        if i < j && m >= j + 1 {
            assert(name_le(keys[i], keys[m - 1]));
        } else if i == j && m >= j + 1 {
            assert(name_le(x, keys[j]));
            assert(name_le(keys[j], keys[m - 1]));
        } else if i < j && m == j {
            assert(name_le(keys[i], x));
        }
    }
}

/// The same statement for a `lex_le`-sorted key sequence.
proof fn lemma_sorted_lex_insert(keys: Seq<Seq<char>>, j: int, x: Seq<char>)
    requires
        sorted_lex(keys),
        0 <= j <= keys.len(),
        forall|k: int| 0 <= k < j ==> lex_le(#[trigger] keys[k], x),
        j < keys.len() ==> !lex_le(keys[j], x),
    ensures
        sorted_lex(keys.insert(j, x)),
{
    lemma_lex_le_props();
    keys.insert_ensures(j, x);
    let keys2 = keys.insert(j, x);
    assert forall|i: int, m: int| 0 <= i <= m < keys2.len() implies #[trigger] lex_le(
        keys2[i],
        keys2[m],
    ) by {
        if i < j && m >= j + 1 {
            assert(lex_le(keys[i], keys[m - 1]));
        } else if i == j && m >= j + 1 {
            assert(lex_le(x, keys[j]));
            assert(lex_le(keys[j], keys[m - 1]));
        } else if i < j && m == j {
            assert(lex_le(keys[i], x));
        }
    }
}

/// The names of a sequence of file records.
pub open spec fn file_keys(fs: Seq<File>) -> Seq<Seq<char>> {
    fs.map_values(|f: File| f.name@)
}

/// The mathematical values of a sequence of file records.
pub open spec fn file_views(fs: Seq<File>) -> Seq<crate::model::FileV> {
    fs.map_values(|f: File| f@)
}

/// The mathematical values of a sequence of directory records.
pub open spec fn dir_views(ds: Seq<Directory>) -> Seq<crate::model::DirectoryV> {
    ds.map_values(|d: Directory| d@)
}

/// The character sequences of a sequence of strings.
pub open spec fn string_keys(ss: Seq<String>) -> Seq<Seq<char>> {
    ss.map_values(|s: String| s@)
}

/// The paths of a sequence of directory records.
pub open spec fn dir_keys(ds: Seq<Directory>) -> Seq<Seq<char>> {
    ds.map_values(|d: Directory| d.path@)
}

/// Taking one element out of a sequence and putting it into another
/// leaves the union of their multisets unchanged.
proof fn lemma_transfer_multiset<A>(
    out_pre: Seq<A>,
    out_post: Seq<A>,
    rest_pre: Seq<A>,
    rest_post: Seq<A>,
    j: int,
    x: A,
)
    requires
        rest_pre.len() > 0,
        x == rest_pre[0],
        rest_post == rest_pre.remove(0),
        0 <= j <= out_pre.len(),
        out_post == out_pre.insert(j, x),
    ensures
        out_post.to_multiset().add(rest_post.to_multiset()) =~= out_pre.to_multiset().add(
            rest_pre.to_multiset(),
        ),
{
    broadcast use vstd::seq_lib::group_to_multiset_ensures;
    broadcast use vstd::multiset::group_multiset_axioms;

    lemma_to_multiset_insert(out_pre, j, x);
    assert(rest_pre.contains(x));
    assert(rest_pre.to_multiset().count(x) > 0);
}

/// An empty sequence contributes nothing to a multiset union.
proof fn lemma_empty_multiset_add<A>(s: Seq<A>, e: Seq<A>)
    requires
        e.len() == 0,
    ensures
        s.to_multiset().add(e.to_multiset()) =~= s.to_multiset(),
        e.to_multiset().add(s.to_multiset()) =~= s.to_multiset(),
{
    broadcast use vstd::seq_lib::group_to_multiset_ensures;
    broadcast use vstd::multiset::group_multiset_axioms;

    assert(forall|a: A| !e.contains(a));
}

/// The position before the first record whose name does not precede
/// `x`'s in the listing order.
fn file_insert_pos(out: &Vec<File>, x: &File) -> (j: usize)
    ensures
        j <= out.len(),
        forall|k: int| 0 <= k < j ==> name_le(#[trigger] file_keys(out@)[k], x.name@),
        j < out.len() ==> !name_le(file_keys(out@)[j as int], x.name@),
{
    let mut j: usize = 0;
    while j < out.len()
        invariant
            j <= out.len(),
            forall|k: int| 0 <= k < j ==> name_le(#[trigger] file_keys(out@)[k], x.name@),
        decreases out.len() - j,
    {
        if !name_le_str(out[j].name.as_str(), x.name.as_str()) {
            return j;
        }
        j += 1;
    }
    j
}

/// Sorts file records by name in the listing order: the result is a
/// rearrangement of the input whose name sequence is sorted, and so
/// determined by what records went in, not by their order.
pub fn sort_files(v: Vec<File>) -> (r: Vec<File>)
    ensures
        file_views(r@).to_multiset() == file_views(v@).to_multiset(),
        sorted_names(file_keys(r@)),
{
    let mut rest = v;
    let mut out: Vec<File> = Vec::new();
    let ghost orig = rest@;
    proof {
        lemma_empty_multiset_add(file_views(rest@), file_views(out@));
        assert(file_views(out@).len() == 0);
    }
    while rest.len() > 0
        invariant
            file_views(out@).to_multiset().add(file_views(rest@).to_multiset())
                == file_views(orig).to_multiset(),
            sorted_names(file_keys(out@)),
        decreases rest.len(),
    {
        let ghost rest_pre = rest@;
        let x = rest.remove(0);
        let j = file_insert_pos(&out, &x);
        let ghost out_pre = out@;
        out.insert(j, x);
        proof {
            lemma_sorted_name_insert(file_keys(out_pre), j as int, x.name@);
            assert(file_keys(out@) =~= file_keys(out_pre).insert(j as int, x.name@));
            assert(file_views(out@) =~= file_views(out_pre).insert(j as int, x@));
            assert(file_views(rest@) =~= file_views(rest_pre).remove(0));
            lemma_transfer_multiset(
                file_views(out_pre),
                file_views(out@),
                file_views(rest_pre),
                file_views(rest@),
                j as int,
                x@,
            );
        }
    }
    proof {
        lemma_empty_multiset_add(file_views(out@), file_views(rest@));
    }
    out
}

/// The position before the first string that does not precede `x` in
/// the listing order.
fn name_insert_pos(out: &Vec<String>, x: &String) -> (j: usize)
    ensures
        j <= out.len(),
        forall|k: int| 0 <= k < j ==> name_le(#[trigger] string_keys(out@)[k], x@),
        j < out.len() ==> !name_le(string_keys(out@)[j as int], x@),
{
    let mut j: usize = 0;
    while j < out.len()
        invariant
            j <= out.len(),
            forall|k: int| 0 <= k < j ==> name_le(#[trigger] string_keys(out@)[k], x@),
        decreases out.len() - j,
    {
        if !name_le_str(out[j].as_str(), x.as_str()) {
            return j;
        }
        j += 1;
    }
    j
}

/// Sorts strings in the listing order, the same way.
pub fn sort_names(v: Vec<String>) -> (r: Vec<String>)
    ensures
        string_keys(r@).to_multiset() == string_keys(v@).to_multiset(),
        sorted_names(string_keys(r@)),
{
    let mut rest = v;
    let mut out: Vec<String> = Vec::new();
    let ghost orig = rest@;
    proof {
        lemma_empty_multiset_add(string_keys(rest@), string_keys(out@));
        assert(string_keys(out@).len() == 0);
    }
    while rest.len() > 0
        invariant
            string_keys(out@).to_multiset().add(string_keys(rest@).to_multiset())
                == string_keys(orig).to_multiset(),
            sorted_names(string_keys(out@)),
        decreases rest.len(),
    {
        let ghost rest_pre = rest@;
        let x = rest.remove(0);
        let j = name_insert_pos(&out, &x);
        let ghost out_pre = out@;
        out.insert(j, x);
        proof {
            lemma_sorted_name_insert(string_keys(out_pre), j as int, x@);
            assert(string_keys(out@) =~= string_keys(out_pre).insert(j as int, x@));
            assert(string_keys(out@) =~= string_keys(out_pre).insert(j as int, x@));
            assert(string_keys(rest@) =~= string_keys(rest_pre).remove(0));
            lemma_transfer_multiset(
                string_keys(out_pre),
                string_keys(out@),
                string_keys(rest_pre),
                string_keys(rest@),
                j as int,
                x@,
            );
        }
    }
    proof {
        lemma_empty_multiset_add(string_keys(out@), string_keys(rest@));
    }
    out
}

/// The position before the first record whose path does not precede
/// `x`'s.
fn dir_insert_pos(out: &Vec<Directory>, x: &Directory) -> (j: usize)
    ensures
        j <= out.len(),
        forall|k: int| 0 <= k < j ==> lex_le(#[trigger] dir_keys(out@)[k], x.path@),
        j < out.len() ==> !lex_le(dir_keys(out@)[j as int], x.path@),
{
    let mut j: usize = 0;
    while j < out.len()
        invariant
            j <= out.len(),
            forall|k: int| 0 <= k < j ==> lex_le(#[trigger] dir_keys(out@)[k], x.path@),
        decreases out.len() - j,
    {
        if !lex_le_str(out[j].path.as_str(), x.path.as_str()) {
            return j;
        }
        j += 1;
    }
    j
}

/// Sorts directory records by resolved path, case-sensitively.
pub fn sort_dirs(v: Vec<Directory>) -> (r: Vec<Directory>)
    ensures
        dir_views(r@).to_multiset() == dir_views(v@).to_multiset(),
        sorted_lex(dir_keys(r@)),
{
    let mut rest = v;
    let mut out: Vec<Directory> = Vec::new();
    let ghost orig = rest@;
    proof {
        lemma_empty_multiset_add(dir_views(rest@), dir_views(out@));
        assert(dir_views(out@).len() == 0);
    }
    while rest.len() > 0
        invariant
            dir_views(out@).to_multiset().add(dir_views(rest@).to_multiset())
                == dir_views(orig).to_multiset(),
            sorted_lex(dir_keys(out@)),
        decreases rest.len(),
    {
        let ghost rest_pre = rest@;
        let x = rest.remove(0);
        let j = dir_insert_pos(&out, &x);
        let ghost out_pre = out@;
        out.insert(j, x);
        proof {
            lemma_sorted_lex_insert(dir_keys(out_pre), j as int, x.path@);
            assert(dir_keys(out@) =~= dir_keys(out_pre).insert(j as int, x.path@));
            assert(dir_views(out@) =~= dir_views(out_pre).insert(j as int, x@));
            assert(dir_views(rest@) =~= dir_views(rest_pre).remove(0));
            lemma_transfer_multiset(
                dir_views(out_pre),
                dir_views(out@),
                dir_views(rest_pre),
                dir_views(rest@),
                j as int,
                x@,
            );
        }
    }
    proof {
        lemma_empty_multiset_add(dir_views(out@), dir_views(rest@));
    }
    out
}

} // verus!
