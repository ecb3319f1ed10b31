//! Reading module declarations out of C++ source lines.

use vstd::prelude::*;
use crate::text::{chars_of, string_views};
use crate::unit::TranslationUnit;

verus! {

/// What one source line declares, as text.
pub enum Declaration {
    Export(Seq<char>),
    Import(Seq<char>),
    Other,
}

/// What one source line declares.
pub enum ModuleLine {
    /// `export module NAME;`
    Export(String),
    /// `import NAME;`
    Import(String),
    /// Anything else.
    Other,
}

impl ModuleLine {
    pub open spec fn declaration(self) -> Declaration {
        match self {
            ModuleLine::Export(n) => Declaration::Export(n@),
            ModuleLine::Import(n) => Declaration::Import(n@),
            ModuleLine::Other => Declaration::Other,
        }
    }
}

/// Blank characters around declarations.
pub open spec fn is_blank(c: char) -> bool {
    c == ' ' || c == '\t' || c == '\r'
}

/// `s` without leading blanks.
pub open spec fn trim_front(s: Seq<char>) -> Seq<char>
    decreases s.len(),
{
    if s.len() > 0 && is_blank(s[0]) {
        trim_front(s.drop_first())
    } else {
        s
    }
}

/// `s` without trailing blanks.
pub open spec fn trim_back(s: Seq<char>) -> Seq<char>
    decreases s.len(),
{
    if s.len() > 0 && is_blank(s.last()) {
        trim_back(s.drop_last())
    } else {
        s
    }
}

/// `s` without blanks at either end.
pub open spec fn trim_blanks(s: Seq<char>) -> Seq<char> {
    trim_back(trim_front(s))
}

/// The name between `keyword` and a final `;` of the trimmed line `t`, itself
/// trimmed; `None` when `t` has not that shape or the name is empty.
pub open spec fn declared_name(t: Seq<char>, keyword: Seq<char>) -> Option<Seq<char>> {
    if t.len() >= keyword.len() + 1 && t.take(keyword.len() as int) == keyword && t.last() == ';' {
        let name = trim_blanks(t.subrange(keyword.len() as int, t.len() - 1));
        if name.len() > 0 {
            Some(name)
        } else {
            None
        }
    } else {
        None
    }
}

/// What the line `line` declares.
pub open spec fn classify(line: Seq<char>) -> Declaration {
    let t = trim_blanks(line);
    match declared_name(t, "export module "@) {
        Some(n) => Declaration::Export(n),
        None => match declared_name(t, "import "@) {
            Some(n) => Declaration::Import(n),
            None => Declaration::Other,
        },
    }
}

/// The module exported by the last `export module` line among `lines`, if any.
pub open spec fn exported_by(lines: Seq<Seq<char>>) -> Option<Seq<char>>
    decreases lines.len(),
{
    if lines.len() == 0 {
        None
    } else {
        match classify(lines.last()) {
            Declaration::Export(n) => Some(n),
            _ => exported_by(lines.drop_last()),
        }
    }
}

/// The modules named by the `import` lines among `lines`, in order.
pub open spec fn imported_by(lines: Seq<Seq<char>>) -> Seq<Seq<char>>
    decreases lines.len(),
{
    if lines.len() == 0 {
        Seq::empty()
    } else {
        match classify(lines.last()) {
            Declaration::Import(n) => imported_by(lines.drop_last()).push(n),
            _ => imported_by(lines.drop_last()),
        }
    }
}

proof fn lemma_trim_front_skip(s: Seq<char>, k: int)
    requires
        0 <= k <= s.len(),
        forall|i: int| 0 <= i < k ==> is_blank(#[trigger] s[i]),
        k == s.len() || !is_blank(s[k]),
    ensures
        trim_front(s) == s.skip(k),
    decreases k,
{
    if k > 0 {
        assert(s.drop_first().skip(k - 1) =~= s.skip(k));
        assert forall|i: int| 0 <= i < k - 1 implies is_blank(#[trigger] s.drop_first()[i]) by {
            assert(s.drop_first()[i] == s[i + 1]);
            assert(is_blank(s[i + 1]));
        }
        if k < s.len() {
            assert(s.drop_first()[k - 1] == s[k]);
        }
        lemma_trim_front_skip(s.drop_first(), k - 1);
        assert(is_blank(s[0]));
    } else {
        assert(s.skip(0) =~= s);
    }
}

proof fn lemma_trim_back_take(s: Seq<char>, k: int)
    requires
        0 <= k <= s.len(),
        forall|i: int| k <= i < s.len() ==> is_blank(#[trigger] s[i]),
        k == 0 || !is_blank(s[k - 1]),
    ensures
        trim_back(s) == s.take(k),
    decreases s.len() - k,
{
    if k < s.len() {
        assert(s.drop_last().take(k) =~= s.take(k));
        assert forall|i: int| k <= i < s.drop_last().len() implies is_blank(#[trigger] s.drop_last()[i]) by {
            assert(s.drop_last()[i] == s[i]);
            assert(is_blank(s[i]));
        }
        if k > 0 {
            assert(s.drop_last()[k - 1] == s[k - 1]);
        }
        assert(is_blank(s[s.len() - 1]));
        lemma_trim_back_take(s.drop_last(), k);
    } else {
        assert(s.take(k) =~= s);
    }
}

/// The characters of `cs[from..to]` without blanks at either end.
fn trimmed_range(cs: &Vec<char>, from: usize, to: usize) -> (r: Vec<char>)
    requires
        from <= to <= cs@.len(),
    ensures
        r@ == trim_blanks(cs@.subrange(from as int, to as int)),
{
    let ghost s = cs@.subrange(from as int, to as int);
    let mut a = from;
    while a < to && (cs[a] == ' ' || cs[a] == '\t' || cs[a] == '\r')
        invariant
            from <= a <= to <= cs@.len(),
            s == cs@.subrange(from as int, to as int),
            forall|i: int| 0 <= i < a - from ==> is_blank(#[trigger] s[i]),
        decreases to - a,
    {
        a += 1;
    }
    proof {
        lemma_trim_front_skip(s, a - from);
    }
    let ghost f = s.skip(a - from);
    assert(f =~= cs@.subrange(a as int, to as int));
    let mut b = to;
    while b > a && (cs[b - 1] == ' ' || cs[b - 1] == '\t' || cs[b - 1] == '\r')
        invariant
            a <= b <= to <= cs@.len(),
            f == cs@.subrange(a as int, to as int),
            forall|i: int| b - a <= i < f.len() ==> is_blank(#[trigger] f[i]),
        decreases b - a,
    {
        b -= 1;
    }
    proof {
        lemma_trim_back_take(f, b - a);
    }
    let mut r: Vec<char> = Vec::new();
    let mut i = a;
    while i < b
        invariant
            a <= i <= b <= cs@.len(),
            r@ == cs@.subrange(a as int, i as int),
        decreases b - i,
    {
        r.push(cs[i]);
        i += 1;
        assert(r@ =~= cs@.subrange(a as int, i as int));
    }
    assert(f.take(b - a) =~= cs@.subrange(a as int, b as int));
    r
}

/// Whether `cs` starts with `keyword`.
fn starts_with(cs: &Vec<char>, keyword: &Vec<char>) -> (r: bool)
    ensures
        r == (cs@.len() >= keyword@.len() && cs@.take(keyword@.len() as int) == keyword@),
{
    if keyword.len() > cs.len() {
        return false;
    }
    let mut i: usize = 0;
    while i < keyword.len()
        invariant
            0 <= i <= keyword@.len() <= cs@.len(),
            forall|k: int| 0 <= k < i ==> cs@[k] == keyword@[k],
        decreases keyword@.len() - i,
    {
        if cs[i] != keyword[i] {
            assert(cs@.take(keyword@.len() as int)[i as int] != keyword@[i as int]);
            return false;
        }
        i += 1;
    }
    assert(cs@.take(keyword@.len() as int) =~= keyword@);
    true
}

/// The declared name after `keyword` in the trimmed line `t`, if `t` has that shape.
fn name_after(t: &Vec<char>, keyword: &str) -> (r: Option<Vec<char>>)
    ensures
        r matches Some(n) ==> declared_name(t@, keyword@) == Some(n@),
        r is None ==> declared_name(t@, keyword@) is None,
{
    let k = chars_of(keyword);
    if t.len() > k.len() && starts_with(t, &k) && t[t.len() - 1] == ';' {
        let name = trimmed_range(t, k.len(), t.len() - 1);
        if name.len() > 0 {
            Some(name)
        } else {
            None
        }
    } else {
        None
    }
}

fn string_of(cs: &Vec<char>) -> (r: String)
    ensures
        r@ == cs@,
{
    let mut r = String::new();
    let mut i: usize = 0;
    while i < cs.len()
        invariant
            0 <= i <= cs@.len(),
            r@ == cs@.take(i as int),
        decreases cs@.len() - i,
    {
        crate::text::push_char(&mut r, cs[i]);
        i += 1;
        assert(r@ =~= cs@.take(i as int));
    }
    assert(cs@.take(cs@.len() as int) =~= cs@);
    r
}

/// What one source line declares: `export module NAME;` or `import NAME;`,
/// with blanks allowed around the line and around the name.
pub fn classify_line(line: &str) -> (r: ModuleLine)
    ensures
        r.declaration() == classify(line@),
{
    let cs = chars_of(line);
    let t = trimmed_range(&cs, 0, cs.len());
    assert(cs@.subrange(0, cs@.len() as int) =~= line@);
    match name_after(&t, "export module ") {
        Some(n) => ModuleLine::Export(string_of(&n)),
        None => match name_after(&t, "import ") {
            Some(n) => ModuleLine::Import(string_of(&n)),
            None => ModuleLine::Other,
        },
    }
}

impl TranslationUnit {
    /// The unit at `path` whose source has the given lines and content hash:
    /// it exports the module of its last `export module` line, and imports
    /// the module of each `import` line, in order.
    pub fn from_lines(path: String, lines: &Vec<String>, base_hash: Vec<u8>) -> (u: TranslationUnit)
        ensures
            u.path@ == path@,
            u.base_hash@ == base_hash@,
            u.exported_module matches Some(m) ==> exported_by(string_views(lines@)) == Some(m@),
            u.exported_module is None ==> exported_by(string_views(lines@)) is None,
            u.import_names() == imported_by(string_views(lines@)),
    {
        let mut exported: Option<String> = None;
        let mut imports: Vec<String> = Vec::new();
        let mut i: usize = 0;
        while i < lines.len()
            invariant
                0 <= i <= lines@.len(),
                exported matches Some(m) ==> exported_by(string_views(lines@).take(i as int)) == Some(m@),
                exported is None ==> exported_by(string_views(lines@).take(i as int)) is None,
                string_views(imports@) == imported_by(string_views(lines@).take(i as int)),
            decreases lines@.len() - i,
        {
            let ghost prefix = string_views(lines@).take(i + 1);
            assert(prefix.drop_last() =~= string_views(lines@).take(i as int));
            assert(prefix.last() == lines@[i as int]@);
            match classify_line(lines[i].as_str()) {
                ModuleLine::Export(n) => {
                    exported = Some(n);
                },
                ModuleLine::Import(n) => {
                    let ghost before = imports@;
                    imports.push(n);
                    assert(string_views(imports@) =~= string_views(before).push(n@));
                },
                ModuleLine::Other => {},
            }
            i += 1;
        }
        assert(string_views(lines@).take(lines@.len() as int) =~= string_views(lines@));
        let u = TranslationUnit { path, exported_module: exported, imports, base_hash };
        assert(u.import_names() =~= string_views(imports@));
        u
    }
}

} // verus!
