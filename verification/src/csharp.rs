//! Data for C# code generation from a machine, and the name sanitizers
//! that turn state names and condition texts into identifiers. The
//! rendering itself (template expansion and file output) lives outside
//! the library.

use crate::text::dec_of;
use crate::text::usize_to_dec;
use crate::transition::StateId;
use vstd::prelude::*;

verus! {

/// Data for the state enumeration: one identifier per state.
pub struct StateEnumTemplate {
    pub states: Vec<String>,
}

/// Data for the dispatcher: the source states and, per source state,
/// the transition class names leaving it.
pub struct DispatcherTemplate {
    pub states: Vec<String>,
    /// from-state identifier -> transition class names
    pub dispatch_map: Vec<(String, Vec<String>)>,
}

/// Data for one transition class.
pub struct TransitionTemplate {
    pub t: TransitionView,
}

/// One transition, prepared for rendering.
#[derive(Debug, Clone)]
pub struct TransitionView {
    pub from: String,
    pub to: String,
    pub class_name: String,
    pub func_name: String,
    pub comment: String,
    pub condition: Option<String>,
}

/// What `str::to_lowercase` returns: a function of the characters
/// alone.
pub uninterp spec fn lower_of(s: Seq<char>) -> Seq<char>;

/// Whether `char::is_alphanumeric` holds of the character: a function
/// of the character alone.
pub uninterp spec fn alphanumeric(c: char) -> bool;

/// Relies on str::to_lowercase: the result depends on the characters
/// alone.
#[verifier::external_body]
fn lowercase(s: &str) -> (r: String)
    ensures
        r@ == lower_of(s@),
{
    s.to_lowercase()
}

/// Relies on char::is_alphanumeric: the result depends on the
/// character alone.
#[verifier::external_body]
fn char_is_alphanumeric(c: char) -> (r: bool)
    ensures
        r == alphanumeric(c),
{
    c.is_alphanumeric()
}

/// The identifier text one character contributes: letters, digits and
/// underscores stand, comparison signs get spelled-out names, all else
/// becomes an underscore.
pub open spec fn sanitize_char(c: char) -> Seq<char> {
    if alphanumeric(c) || c == '_' {
        seq![c]
    } else if c == '=' {
        "_eq_"@
    } else if c == '>' {
        "_gt_"@
    } else if c == '<' {
        "_lt_"@
    } else {
        "_"@
    }
}

/// The identifier text of a whole (already lowercased) text: `&&` and
/// `||` become `_and_` and `_or_`, every other character is mapped on
/// its own.
pub open spec fn sanitize_core(s: Seq<char>) -> Seq<char>
    decreases s.len(),
{
    if s.len() == 0 {
        Seq::empty()
    } else if s.len() >= 2 && s[0] == '&' && s[1] == '&' {
        "_and_"@ + sanitize_core(s.skip(2))
    } else if s.len() >= 2 && s[0] == '|' && s[1] == '|' {
        "_or_"@ + sanitize_core(s.skip(2))
    } else {
        sanitize_char(s[0]) + sanitize_core(s.skip(1))
    }
}

/// The text with leading and trailing underscores removed.
pub open spec fn trim_underscores(s: Seq<char>) -> Seq<char>
    decreases s.len(),
{
    if s.len() == 0 {
        s
    } else if s[0] == '_' {
        trim_underscores(s.drop_first())
    } else if s.last() == '_' {
        trim_underscores(s.drop_last())
    } else {
        s
    }
}

/// A position whose character passes through `sanitize_core`
/// unchanged: a letter, digit or underscore that does not begin an
/// `&&` or `||` pair.
pub open spec fn sanitize_plain_at(s: Seq<char>, j: int) -> bool {
    &&& alphanumeric(s[j]) || s[j] == '_'
    &&& !(s[j] == '&' && j + 1 < s.len() && s[j + 1] == '&')
    &&& !(s[j] == '|' && j + 1 < s.len() && s[j + 1] == '|')
}

proof fn lemma_sanitize_plain_run(s: Seq<char>, a: int, b: int)
    requires
        0 <= a <= b <= s.len(),
        forall|j: int| a <= j < b ==> #[trigger] sanitize_plain_at(s, j),
    ensures
        sanitize_core(s.skip(a)) == s.subrange(a, b) + sanitize_core(s.skip(b)),
    decreases b - a,
{
    if a == b {
        assert(sanitize_core(s.skip(a)) =~= s.subrange(a, b) + sanitize_core(s.skip(b)));
    } else {
        let rest = s.skip(a);
        assert(rest[0] == s[a]);
        assert(sanitize_plain_at(s, a));
        assert(rest.len() >= 2 ==> rest[1] == s[a + 1]);
        assert(!(rest.len() >= 2 && rest[0] == '&' && rest[1] == '&'));
        assert(!(rest.len() >= 2 && rest[0] == '|' && rest[1] == '|'));
        assert(sanitize_char(s[a]) =~= seq![s[a]]);
        assert(rest.skip(1) =~= s.skip(a + 1));
        lemma_sanitize_plain_run(s, a + 1, b);
        assert(sanitize_core(s.skip(a)) =~= s.subrange(a, b) + sanitize_core(s.skip(b)));
    }
}

proof fn lemma_trim_range(s: Seq<char>, a: int, b: int)
    requires
        0 <= a <= b <= s.len(),
        forall|j: int| 0 <= j < a ==> (#[trigger] s[j]) == '_',
        forall|j: int| b <= j < s.len() ==> (#[trigger] s[j]) == '_',
        a == b || (s[a] != '_' && s[b - 1] != '_'),
    ensures
        trim_underscores(s) == s.subrange(a, b),
    decreases s.len(),
{
    if s.len() == 0 {
        assert(trim_underscores(s) =~= s.subrange(a, b));
    } else if s[0] == '_' {
        let rest = s.drop_first();
        if a == b {
            if a == 0 {
                lemma_trim_range(rest, 0, 0);
            } else {
                lemma_trim_range(rest, a - 1, b - 1);
            }
            assert(trim_underscores(s) =~= s.subrange(a, b));
        } else {
            assert(a > 0);
            assert forall|j: int| 0 <= j < a - 1 implies (#[trigger] rest[j]) == '_' by {
                assert(rest[j] == s[j + 1]);
            }
            assert forall|j: int| b - 1 <= j < rest.len() implies (#[trigger] rest[j]) == '_' by {
                assert(rest[j] == s[j + 1]);
            }
            lemma_trim_range(rest, a - 1, b - 1);
            assert(rest.subrange(a - 1, b - 1) =~= s.subrange(a, b));
        }
    } else if s.last() == '_' {
        let rest = s.drop_last();
        assert(b < s.len() || a == b || s[b - 1] != '_');
        if a == b {
            let a2: int = if a > rest.len() {
                rest.len() as int
            } else {
                a
            };
            lemma_trim_range(rest, a2, a2);
            assert(trim_underscores(s) =~= s.subrange(a, b));
        } else {
            assert(b <= rest.len());
            lemma_trim_range(rest, a, b);
            assert(rest.subrange(a, b) =~= s.subrange(a, b));
        }
    } else {
        assert(a == 0 && b == s.len());
        assert(trim_underscores(s) =~= s.subrange(a, b));
    }
}

/// Turns condition or state text into an identifier: lowercased, with
/// comparison and logical operators spelled out, every other symbol an
/// underscore, and no underscores at the ends.
#[verifier::loop_isolation(false)]
#[verifier::rlimit(60)]
pub fn sanitize_fn_name(s: &str) -> (r: String)
    ensures
        r@ == trim_underscores(sanitize_core(lower_of(s@))),
{
    let low = lowercase(s);
    let ghost w = low@;
    let t = low.as_str();
    let n = t.unicode_len();
    let mut out = String::new();
    let mut start: usize = 0;
    let mut i: usize = 0;
    proof {
        assert(w.skip(0) =~= w);
    }
    while i < n
        invariant
            start <= i <= n,
            n == w.len(),
            t@ == w,
            sanitize_core(w) == out@ + sanitize_core(w.skip(start as int)),
            forall|j: int| start <= j < i ==> #[trigger] sanitize_plain_at(w, j),
        decreases n - i,
    {
        let c = t.get_char(i);
        if c == '&' && i + 1 < n && t.get_char(i + 1) == '&' {
            out.append(t.substring_char(start, i));
            proof {
                lemma_sanitize_plain_run(w, start as int, i as int);
                assert(w.skip(i as int)[0] == w[i as int]);
                assert(w.skip(i as int)[1] == w[i as int + 1]);
                assert(w.skip(i as int).skip(2) =~= w.skip(i as int + 2));
            }
            out.append("_and_");
            i += 2;
            start = i;
        } else if c == '|' && i + 1 < n && t.get_char(i + 1) == '|' {
            out.append(t.substring_char(start, i));
            proof {
                lemma_sanitize_plain_run(w, start as int, i as int);
                assert(w.skip(i as int)[0] == w[i as int]);
                assert(w.skip(i as int)[1] == w[i as int + 1]);
                assert(w.skip(i as int).skip(2) =~= w.skip(i as int + 2));
            }
            out.append("_or_");
            i += 2;
            start = i;
        } else if char_is_alphanumeric(c) || c == '_' {
            proof {
                assert(w[i as int] == c);
            }
            i += 1;
        } else {
            out.append(t.substring_char(start, i));
            proof {
                lemma_sanitize_plain_run(w, start as int, i as int);
                let rest = w.skip(i as int);
                assert(rest[0] == w[i as int]);
                assert(!(rest.len() >= 2 && rest[0] == '&' && rest[1] == '&'));
                assert(!(rest.len() >= 2 && rest[0] == '|' && rest[1] == '|'));
                assert(rest.skip(1) =~= w.skip(i as int + 1));
            }
            if c == '=' {
                out.append("_eq_");
            } else if c == '>' {
                out.append("_gt_");
            } else if c == '<' {
                out.append("_lt_");
            } else {
                out.append("_");
            }
            i += 1;
            start = i;
        }
    }
    out.append(t.substring_char(start, n));
    proof {
        lemma_sanitize_plain_run(w, start as int, n as int);
        assert(w.skip(n as int).len() == 0);
        assert(sanitize_core(w.skip(n as int)) =~= Seq::<char>::empty());
        assert(out@ =~= sanitize_core(w));
    }
    let core = out;
    let ct = core.as_str();
    let m = ct.unicode_len();
    let mut a: usize = 0;
    while a < m && ct.get_char(a) == '_'
        invariant
            a <= m,
            m == core@.len(),
            ct@ == core@,
            forall|j: int| 0 <= j < a ==> (#[trigger] core@[j]) == '_',
        decreases m - a,
    {
        a += 1;
    }
    let mut b: usize = m;
    while b > a && ct.get_char(b - 1) == '_'
        invariant
            a <= b <= m,
            m == core@.len(),
            ct@ == core@,
            forall|j: int| b <= j < m ==> (#[trigger] core@[j]) == '_',
        decreases b,
    {
        b -= 1;
    }
    proof {
        lemma_trim_range(core@, a as int, b as int);
    }
    let trimmed = ct.substring_char(a, b);
    String::from_str(trimmed)
}

/// The enumeration identifier of a state: its name and its id, joined
/// by an underscore and sanitized.
pub fn sanitize_enum_name(s: &str, id: &StateId) -> (r: String)
    ensures
        r@ == trim_underscores(
            sanitize_core(lower_of(s@ + "_"@ + dec_of(id.0 as nat))),
        ),
{
    let mut joined = String::from_str(s);
    joined.append("_");
    joined.append(usize_to_dec(id.0).as_str());
    sanitize_fn_name(joined.as_str())
}

} // verus!
