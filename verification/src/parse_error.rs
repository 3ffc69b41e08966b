//! Options for rendering a parse tree as an s-expression when a parse
//! error is reported, and the string escaping that rendering uses. The
//! rendering itself walks the front-end's tree and lives with it,
//! outside the library.

use crate::text::hex4_of;
use crate::text::u32_to_hex4;
use vstd::prelude::*;

verus! {

/// What an s-expression dump shows of each node.
pub struct SexpOptions {
    pub show_text: bool,
    pub show_byte_range: bool,
    pub show_position: bool,
    pub max_text_length: Option<usize>,
}

impl Default for SexpOptions {
    /// Text shown and truncated at 100 characters, positions hidden.
    fn default() -> (r: SexpOptions)
        ensures
            r.show_text == true,
            r.show_byte_range == false,
            r.show_position == false,
            r.max_text_length == Some(100usize),
    {
        SexpOptions {
            show_text: true,
            show_byte_range: false,
            show_position: false,
            max_text_length: Some(100),
        }
    }
}

/// Whether `char::is_control` holds of the character: a function of
/// the character alone.
pub uninterp spec fn control_char(c: char) -> bool;

/// Relies on char::is_control: the result depends on the character
/// alone.
#[verifier::external_body]
fn char_is_control(c: char) -> (r: bool)
    ensures
        r == control_char(c),
{
    c.is_control()
}

/// The escaped form of one character in a quoted dump: named escapes
/// for the common control characters, `\u` plus four hex digits for
/// any other control character, the character itself otherwise.
pub open spec fn escape_string_char(c: char) -> Seq<char> {
    if c == '\\' {
        "\\\\"@
    } else if c == '"' {
        "\\\""@
    } else if c == '\n' {
        "\\n"@
    } else if c == '\r' {
        "\\r"@
    } else if c == '\t' {
        "\\t"@
    } else if c == '\u{8}' {
        "\\b"@
    } else if c == '\u{c}' {
        "\\f"@
    } else if control_char(c) {
        "\\u"@ + hex4_of((c as u32) as nat)
    } else {
        seq![c]
    }
}

/// The text with every character escaped for a quoted dump.
pub open spec fn escape_string_of(s: Seq<char>) -> Seq<char>
    decreases s.len(),
{
    if s.len() == 0 {
        Seq::empty()
    } else {
        escape_string_of(s.drop_last()) + escape_string_char(s.last())
    }
}

/// A character that passes through `escape_string` unchanged.
pub open spec fn escape_string_plain(c: char) -> bool {
    escape_string_char(c) == seq![c]
}

proof fn lemma_escape_string_plain_run(s: Seq<char>, a: int, b: int)
    requires
        0 <= a <= b <= s.len(),
        forall|j: int| a <= j < b ==> escape_string_plain(#[trigger] s[j]),
    ensures
        escape_string_of(s.take(b)) == escape_string_of(s.take(a)) + s.subrange(a, b),
    decreases b - a,
{
    if a == b {
        assert(escape_string_of(s.take(b)) =~= escape_string_of(s.take(a)) + s.subrange(a, b));
    } else {
        lemma_escape_string_plain_run(s, a, b - 1);
        assert(s.take(b).drop_last() =~= s.take(b - 1));
        assert(s.take(b).last() == s[b - 1]);
        assert(escape_string_char(s[b - 1]) == seq![s[b - 1]]);
        assert(escape_string_of(s.take(b)) =~= escape_string_of(s.take(a)) + s.subrange(a, b));
    }
}

/// Escapes text for a quoted dump: quotes, backslashes and control
/// characters are replaced by their named or `\u`-numbered escapes.
#[verifier::loop_isolation(false)]
#[verifier::rlimit(30)]
pub fn escape_string(s: &str) -> (r: String)
    ensures
        r@ == escape_string_of(s@),
{
    let n = s.unicode_len();
    let mut out = String::new();
    let mut start: usize = 0;
    let mut i: usize = 0;
    proof {
        assert(s@.take(0) =~= Seq::<char>::empty());
        assert(escape_string_of(s@.take(0)) =~= Seq::<char>::empty());
    }
    while i < n
        invariant
            start <= i <= n,
            n == s@.len(),
            out@ == escape_string_of(s@.take(start as int)),
            forall|j: int| start <= j < i ==> escape_string_plain(#[trigger] s@[j]),
        decreases n - i,
    {
        let c = s.get_char(i);
        let special = c == '\\' || c == '"' || c == '\n' || c == '\r' || c == '\t' || c
            == '\u{8}' || c == '\u{c}' || char_is_control(c);
        if special {
            out.append(s.substring_char(start, i));
            proof {
                lemma_escape_string_plain_run(s@, start as int, i as int);
            }
            if c == '\\' {
                out.append("\\\\");
            } else if c == '"' {
                out.append("\\\"");
            } else if c == '\n' {
                out.append("\\n");
            } else if c == '\r' {
                out.append("\\r");
            } else if c == '\t' {
                out.append("\\t");
            } else if c == '\u{8}' {
                out.append("\\b");
            } else if c == '\u{c}' {
                out.append("\\f");
            } else {
                out.append("\\u");
                let h = u32_to_hex4(c as u32);
                out.append(h.as_str());
            }
            proof {
                assert(s@.take(i as int + 1).drop_last() =~= s@.take(i as int));
                assert(out@ =~= escape_string_of(s@.take(i as int + 1)));
            }
            start = i + 1;
        } else {
            proof {
                assert(escape_string_char(s@[i as int]) == seq![s@[i as int]]);
            }
        }
        i += 1;
    }
    out.append(s.substring_char(start, n));
    proof {
        lemma_escape_string_plain_run(s@, start as int, n as int);
        assert(s@.take(n as int) =~= s@);
    }
    out
}

} // verus!
