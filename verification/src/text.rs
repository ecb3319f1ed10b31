//! Small text operations on command-line pieces and file names.

use vstd::prelude::*;

verus! {

/// `pat` occurs somewhere in `s`.
pub open spec fn contains_text(s: Seq<char>, pat: Seq<char>) -> bool {
    exists|i: int| 0 <= i && i + pat.len() <= s.len() && #[trigger] s.subrange(i, i + pat.len()) == pat
}

/// `s` with every `'.'` replaced by `'_'`.
pub open spec fn dots_to_underscores(s: Seq<char>) -> Seq<char> {
    s.map_values(|c: char| if c == '.' { '_' } else { c })
}

/// `s` without its leading `'/'` characters.
pub open spec fn trim_leading_slashes(s: Seq<char>) -> Seq<char>
    decreases s.len(),
{
    if s.len() > 0 && s[0] == '/' {
        trim_leading_slashes(s.drop_first())
    } else {
        s
    }
}

/// The character sequences of a list of strings.
pub open spec fn string_views(v: Seq<String>) -> Seq<Seq<char>> {
    v.map_values(|s: String| s@)
}

/// `String::push`: appends one character.
#[verifier::external_body]
pub(crate) fn push_char(s: &mut String, c: char)
    ensures
        final(s)@ == old(s)@.push(c),
{
    s.push(c);
}

/// The characters of `s`, one by one.
pub fn chars_of(s: &str) -> (r: Vec<char>)
    ensures
        r@ == s@,
{
    let n = s.unicode_len();
    let mut r: Vec<char> = Vec::new();
    let mut i: usize = 0;
    while i < n
        invariant
            0 <= i <= n,
            n == s@.len(),
            r@ == s@.take(i as int),
        decreases n - i,
    {
        r.push(s.get_char(i));
        i += 1;
        assert(r@ =~= s@.take(i as int));
    }
    assert(s@.take(n as int) =~= s@);
    r
}

/// Whether `pat` occurs in `s`.
pub fn text_contains(s: &str, pat: &str) -> (r: bool)
    ensures
        r == contains_text(s@, pat@),
{
    let sc = chars_of(s);
    let pc = chars_of(pat);
    if pc.len() == 0 {
        assert(s@.subrange(0int, 0int + pat@.len()) =~= pat@);
        return true;
    }
    let mut i: usize = 0;
    while pc.len() <= sc.len() - i
        invariant
            0 <= i,
            pc@.len() > 0,
            i <= sc@.len(),
            sc@ == s@,
            pc@ == pat@,
            forall|k: int| 0 <= k < i ==> #[trigger] sc@.subrange(k, k + pc@.len()) != pc@,
        decreases sc@.len() - i,
    {
        let mut j: usize = 0;
        let mut same = true;
        assert(sc@.subrange(i as int, i as int) =~= pc@.take(0));
        while j < pc.len()
            invariant
                0 <= j <= pc@.len(),
                0 <= i,
                i + pc@.len() <= sc@.len(),
                sc@.len() <= usize::MAX,
                same == (sc@.subrange(i as int, i + j) == pc@.take(j as int)),
            decreases pc@.len() - j,
        {
            if sc[i + j] != pc[j] {
                same = false;
            }
            proof {
                let a = sc@.subrange(i as int, i + j);
                let b = pc@.take(j as int);
                assert(sc@.subrange(i as int, i + j + 1) =~= a.push(sc@[i + j]));
                assert(pc@.take(j + 1) =~= b.push(pc@[j as int]));
                if a.push(sc@[i + j]) == b.push(pc@[j as int]) {
                    assert(a =~= a.push(sc@[i + j]).drop_last());
                    assert(b =~= b.push(pc@[j as int]).drop_last());
                    assert(a.push(sc@[i + j])[j as int] == sc@[i + j]);
                    assert(b.push(pc@[j as int])[j as int] == pc@[j as int]);
                }
            }
            j += 1;
        }
        assert(pc@.take(pc@.len() as int) =~= pc@);
        if same {
            assert(sc@.subrange(i as int, i + pc@.len()) == pat@);
            return true;
        }
        i += 1;
    }
    assert forall|k: int| 0 <= k && k + pat@.len() <= s@.len() implies #[trigger] s@.subrange(k, k + pat@.len()) != pat@ by {
        assert(sc@.subrange(k, k + pc@.len()) != pc@);
    }
    false
}

/// `s` with every `'.'` replaced by `'_'`.
pub fn replace_dots(s: &str) -> (r: String)
    ensures
        r@ == dots_to_underscores(s@),
{
    let cs = chars_of(s);
    let mut r = String::new();
    let mut i: usize = 0;
    while i < cs.len()
        invariant
            0 <= i <= cs@.len(),
            cs@ == s@,
            r@ == dots_to_underscores(s@.take(i as int)),
        decreases cs@.len() - i,
    {
        let c = cs[i];
        if c == '.' {
            push_char(&mut r, '_');
        } else {
            push_char(&mut r, c);
        }
        i += 1;
        assert(r@ =~= dots_to_underscores(s@.take(i as int)));
    }
    assert(s@.take(cs@.len() as int) =~= s@);
    r
}

proof fn lemma_trim_skip(s: Seq<char>, k: int)
    requires
        0 <= k <= s.len(),
        forall|i: int| 0 <= i < k ==> s[i] == '/',
    ensures
        trim_leading_slashes(s) == trim_leading_slashes(s.skip(k)),
    decreases k,
{
    if k > 0 {
        assert(s.drop_first().skip(k - 1) =~= s.skip(k));
        assert forall|i: int| 0 <= i < k - 1 implies s.drop_first()[i] == '/' by {
            assert(s.drop_first()[i] == s[i + 1]);
        }
        lemma_trim_skip(s.drop_first(), k - 1);
    } else {
        assert(s.skip(0) =~= s);
    }
}

/// `s` without its leading `'/'` characters.
pub fn trim_slashes_front(s: &str) -> (r: String)
    ensures
        r@ == trim_leading_slashes(s@),
{
    let cs = chars_of(s);
    let mut k: usize = 0;
    while k < cs.len() && cs[k] == '/'
        invariant
            0 <= k <= cs@.len(),
            cs@ == s@,
            forall|i: int| 0 <= i < k ==> s@[i] == '/',
        decreases cs@.len() - k,
    {
        k += 1;
    }
    proof {
        lemma_trim_skip(s@, k as int);
        if k < cs@.len() {
            assert(s@.skip(k as int)[0] == s@[k as int]);
        }
    }
    let mut r = String::new();
    let mut i: usize = k;
    while i < cs.len()
        invariant
            k <= i <= cs@.len(),
            cs@ == s@,
            r@ == s@.subrange(k as int, i as int),
        decreases cs@.len() - i,
    {
        push_char(&mut r, cs[i]);
        i += 1;
        assert(r@ =~= s@.subrange(k as int, i as int));
    }
    assert(s@.subrange(k as int, cs@.len() as int) =~= s@.skip(k as int));
    r
}

/// `prefix` followed by `s`, as a new string.
pub fn prefixed(prefix: &str, s: &str) -> (r: String)
    ensures
        r@ == prefix@ + s@,
{
    let mut r = String::from_str(prefix);
    r.append(s);
    r
}

/// Whether `a` and `b` are the same text.
pub fn text_equal(a: &str, b: &str) -> (r: bool)
    ensures
        r == (a@ == b@),
{
    let ac = chars_of(a);
    let bc = chars_of(b);
    if ac.len() != bc.len() {
        return false;
    }
    let mut i: usize = 0;
    while i < ac.len()
        invariant
            0 <= i <= ac@.len(),
            ac@.len() == bc@.len(),
            ac@ == a@,
            bc@ == b@,
            forall|k: int| 0 <= k < i ==> ac@[k] == bc@[k],
        decreases ac@.len() - i,
    {
        if ac[i] != bc[i] {
            return false;
        }
        i += 1;
    }
    assert(ac@ =~= bc@);
    true
}

} // verus!
