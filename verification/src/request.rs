//! What the engine computes from the raw request values: the
//! normalized target path, the effective recursion depth under the
//! root-safety cap, the depth query parameter, and the path screen of
//! the save operation.

use vstd::prelude::*;
use vstd::string::StrSliceExecFns;
use vstd::string::StringExecFns;

verus! {

/// The longest suffix of `s` that does not start with a separator.
pub open spec fn strip_leading_slashes(s: Seq<char>) -> Seq<char>
    decreases s.len(),
{
    if s.len() > 0 && s[0] == '/' {
        strip_leading_slashes(s.skip(1))
    } else {
        s
    }
}

/// Normalization of a user-supplied path: `"."` is the root, and any
/// other input is forced under the root by dropping leading
/// separators and re-rooting what is left. `""` and `"/"` thereby
/// resolve to the root as well.
pub open spec fn spec_normalize(s: Seq<char>) -> Seq<char> {
    if s == seq!['.'] {
        seq!['/']
    } else {
        seq!['/'] + strip_leading_slashes(s)
    }
}

/// The index of the first character that is not a separator.
fn first_non_slash(s: &str) -> (i: usize)
    ensures
        i <= s@.len(),
        forall|k: int| 0 <= k < i ==> s@[k] == '/',
        i < s@.len() ==> s@[i as int] != '/',
{
    let n = s.unicode_len();
    let mut i: usize = 0;
    while i < n
        invariant
            i <= n,
            n == s@.len(),
            forall|k: int| 0 <= k < i ==> s@[k] == '/',
        decreases n - i,
    {
        if s.get_char(i) != '/' {
            return i;
        }
        i += 1;
    }
    i
}

/// Dropping an all-separator prefix is exactly what
/// `strip_leading_slashes` does.
proof fn lemma_strip_is_skip(s: Seq<char>, i: int)
    requires
        0 <= i <= s.len(),
        forall|k: int| 0 <= k < i ==> s[k] == '/',
        i < s.len() ==> s[i] != '/',
    ensures
        strip_leading_slashes(s) == s.skip(i),
    decreases i,
{
    if i == 0 {
        assert(s.skip(0) =~= s);
    } else {
        let t = s.skip(1);
        assert(forall|k: int| 0 <= k < i - 1 ==> t[k] == '/');
        lemma_strip_is_skip(t, i - 1);
        assert(t.skip(i - 1) =~= s.skip(i));
    }
}

/// Normalizes the raw request path as `spec_normalize` says.
pub fn normalize_path(s: &str) -> (r: String)
    ensures
        r@ == spec_normalize(s@),
{
    proof {
        reveal_strlit("/");
        reveal_strlit(".");
    }
    let n = s.unicode_len();
    if n == 1 && s.get_char(0) == '.' {
        proof {
            assert(s@ =~= seq!['.']);
            assert("/"@ =~= seq!['/']);
        }
        String::from_str("/")
    } else {
        let i = first_non_slash(s);
        let tail = s.substring_char(i, n);
        let mut r = String::from_str("/");
        r.append(tail);
        proof {
            assert(s@ != seq!['.']) by {
                if s@ == seq!['.'] {
                    assert(s@.len() == 1);
                    assert(s@[0] == '.');
                }
            }
            lemma_strip_is_skip(s@, i as int);
            assert("/"@ =~= seq!['/']);
        }
        r
    }
}

/// The depth actually used for the walk: requesting the filesystem
/// root caps the depth at one, any other target keeps the requested
/// depth unchanged.
pub open spec fn spec_effective_depth(canonical: Seq<char>, requested: u32) -> u32 {
    if canonical == seq!['/'] {
        if requested < 1 {
            requested
        } else {
            1u32
        }
    } else {
        requested
    }
}

/// Applies the root-safety cap to the requested depth.
pub fn effective_depth(canonical: &str, requested: u32) -> (r: u32)
    ensures
        r == spec_effective_depth(canonical@, requested),
{
    let n = canonical.unicode_len();
    let is_root = n == 1 && canonical.get_char(0) == '/';
    proof {
        if is_root {
            assert(canonical@ =~= seq!['/']);
        } else if canonical@ == seq!['/'] {
            assert(canonical@.len() == 1);
            assert(canonical@[0] == '/');
        }
    }
    if is_root {
        if requested < 1 {
            requested
        } else {
            1
        }
    } else {
        requested
    }
}

/// The inputs `""`, `"/"` and `"."` all normalize to the filesystem
/// root.
pub proof fn lemma_normalize_root_inputs()
    ensures
        spec_normalize(""@) == seq!['/'],
        spec_normalize("/"@) == seq!['/'],
        spec_normalize("."@) == seq!['/'],
{
    reveal_strlit("");
    reveal_strlit("/");
    reveal_strlit(".");
    assert(""@ =~= Seq::<char>::empty());
    assert(strip_leading_slashes(""@) == ""@);
    assert(seq!['/'] + ""@ =~= seq!['/']);
    assert("/"@ =~= seq!['/']);
    let root = seq!['/'];
    assert(root.skip(1) =~= Seq::<char>::empty());
    assert(strip_leading_slashes(root) == strip_leading_slashes(root.skip(1)));
    assert(strip_leading_slashes(Seq::<char>::empty()) == Seq::<char>::empty());
    assert(seq!['/'] + Seq::<char>::empty() =~= seq!['/']);
    assert("."@ =~= seq!['.']);
}

/// The root-safety cap makes every requested depth of at least one
/// behave, at the filesystem root, exactly as a requested depth of
/// one.
pub proof fn lemma_root_depth_cap(requested: u32)
    requires
        requested >= 1,
    ensures
        spec_effective_depth(seq!['/'], requested) == spec_effective_depth(seq!['/'], 1),
{
}

/// The string holds two consecutive dots somewhere.
pub open spec fn contains_dotdot(s: Seq<char>) -> bool {
    exists|i: int| 0 <= i && i + 2 <= s.len() && #[trigger] s[i] == '.' && s[i + 1] == '.'
}

/// Screens the path of a save request: true exactly when the path
/// holds a `..` sequence and is to be rejected.
pub fn has_dotdot(s: &str) -> (r: bool)
    ensures
        r == contains_dotdot(s@),
{
    let n = s.unicode_len();
    if n < 2 {
        return false;
    }
    let mut i: usize = 0;
    while i <= n - 2
        invariant
            2 <= n,
            n == s@.len(),
            i <= n - 1,
            forall|k: int| 0 <= k < i ==> !(#[trigger] s@[k] == '.' && s@[k + 1] == '.'),
        decreases n - i,
    {
        if s.get_char(i) == '.' && s.get_char(i + 1) == '.' {
            return true;
        }
        i += 1;
    }
    false
}

/// A decimal digit.
pub open spec fn is_digit(c: char) -> bool {
    48 <= c as u32 <= 57
}

/// The numeric value of a decimal digit.
pub open spec fn digit_val(c: char) -> int {
    c as u32 - 48
}

/// All characters of the sequence are decimal digits.
pub open spec fn all_digits(s: Seq<char>) -> bool {
    forall|i: int| 0 <= i < s.len() ==> is_digit(#[trigger] s[i])
}

/// The value of a digit string read in base ten.
pub open spec fn digits_val(s: Seq<char>) -> int
    decreases s.len(),
{
    if s.len() == 0 {
        0
    } else {
        digits_val(s.drop_last()) * 10 + digit_val(s.last())
    }
}

/// The digit part of a decimal numeral: an optional leading `+` sign
/// is dropped.
pub open spec fn numeral_digits(s: Seq<char>) -> Seq<char> {
    if s.len() > 0 && s[0] == '+' {
        s.skip(1)
    } else {
        s
    }
}

/// What parsing the string as a `u32` yields: after an optional `+`
/// sign, one or more decimal digits whose value fits; anything else
/// fails.
pub open spec fn spec_parse_u32(s: Seq<char>) -> Option<u32> {
    let d = numeral_digits(s);
    if d.len() > 0 && all_digits(d) && digits_val(d) <= u32::MAX {
        Some(digits_val(d) as u32)
    } else {
        None
    }
}

/// A digit string's value is never negative.
proof fn lemma_digits_val_nonneg(s: Seq<char>)
    requires
        all_digits(s),
    ensures
        digits_val(s) >= 0,
    decreases s.len(),
{
    if s.len() > 0 {
        assert(all_digits(s.drop_last()));
        lemma_digits_val_nonneg(s.drop_last());
    }
}

/// Reading one more digit multiplies the prefix value by ten and adds
/// the digit.
proof fn lemma_digits_val_step(s: Seq<char>, i: int)
    requires
        0 <= i < s.len(),
    ensures
        digits_val(s.take(i + 1)) == digits_val(s.take(i)) * 10 + digit_val(s[i]),
{
    assert(s.take(i + 1).drop_last() =~= s.take(i));
    assert(s.take(i + 1).last() == s[i]);
}

/// Extending a digit string never shrinks its value.
proof fn lemma_digits_val_mono(s: Seq<char>, i: int)
    requires
        all_digits(s),
        0 <= i <= s.len(),
    ensures
        digits_val(s) >= digits_val(s.take(i)),
    decreases s.len() - i,
{
    if i == s.len() {
        assert(s.take(i) =~= s);
    } else {
        lemma_digits_val_step(s, i);
        assert(all_digits(s.take(i))) by {
            assert(forall|k: int| 0 <= k < i ==> s.take(i)[k] == s[k]);
        }
        lemma_digits_val_nonneg(s.take(i));
        lemma_digits_val_mono(s, i + 1);
    }
}

/// Parses a `u32` exactly as `spec_parse_u32` says.
pub fn parse_u32(s: &str) -> (r: Option<u32>)
    ensures
        r == spec_parse_u32(s@),
{
    let n = s.unicode_len();
    if n == 0 {
        return None;
    }
    let start: usize = if s.get_char(0) == '+' {
        1
    } else {
        0
    };
    let ghost d = numeral_digits(s@);
    proof {
        assert(d =~= s@.skip(start as int));
    }
    if start == n {
        return None;
    }
    let mut acc: u32 = 0;
    let mut i: usize = start;
    while i < n
        invariant
            start <= i <= n,
            n == s@.len(),
            d == s@.skip(start as int),
            d == numeral_digits(s@),
            d.len() == n - start,
            forall|k: int| 0 <= k < i - start ==> is_digit(#[trigger] d[k]),
            acc == digits_val(d.take(i - start)),
        decreases n - i,
    {
        let c = s.get_char(i);
        let cv = c as u32;
        proof {
            assert(d[i - start] == s@[i as int]);
        }
        if cv < 48 || cv > 57 {
            proof {
                assert(0 <= i - start < d.len());
                assert(!is_digit(d[i - start]));
                assert(!all_digits(d));
            }
            return None;
        }
        let dv: u32 = cv - 48;
        let wide: u64 = acc as u64 * 10 + dv as u64;
        proof {
            lemma_digits_val_step(d, i - start);
            assert(digit_val(d[i - start]) == dv);
            assert(digits_val(d.take(i + 1 - start)) == acc * 10 + dv);
        }
        if wide > u32::MAX as u64 {
            proof {
                if all_digits(d) {
                    lemma_digits_val_mono(d, i + 1 - start);
                    assert(digits_val(d) > u32::MAX);
                }
            }
            return None;
        }
        acc = wide as u32;
        i += 1;
    }
    proof {
        assert(d.take(n - start) =~= d);
        lemma_digits_val_nonneg(d);
    }
    Some(acc)
}

/// The recursion depth taken from the query: an absent or unparseable
/// parameter defaults to zero.
pub open spec fn spec_depth_param(s: Option<Seq<char>>) -> u32 {
    match s {
        None => 0,
        Some(t) => match spec_parse_u32(t) {
            Some(v) => v,
            None => 0,
        },
    }
}

/// Reads the depth query parameter, defaulting to zero.
pub fn depth_param(s: Option<&str>) -> (r: u32)
    ensures
        s is None ==> r == 0,
        s matches Some(t) ==> r == spec_depth_param(Some(t@)),
{
    match s {
        None => 0,
        Some(t) => match parse_u32(t) {
            Some(v) => v,
            None => 0,
        },
    }
}

} // verus!
