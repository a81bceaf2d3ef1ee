//! Rendering a buffer's text for emission: newline translation.
//!
//! Every output mode renders a buffer the same way: Unix style emits the text
//! unchanged; Windows style turns every `\n` into `\r\n` and drops every
//! pre-existing `\r`, character by character, so no doubled carriage return can
//! survive.

use crate::config::NewlineStyle;
use vstd::prelude::*;
use vstd::string::StrSliceExecFns;
use vstd::string::StringExecFns;

verus! {

/// The Windows rendering of `s`: `\n` becomes `\r\n`, `\r` is dropped, every
/// other character is kept.
pub open spec fn windows_text(s: Seq<char>) -> Seq<char>
    decreases s.len(),
{
    if s.len() == 0 {
        Seq::<char>::empty()
    } else {
        let rest = windows_text(s.drop_first());
        if s[0] == '\n' {
            seq!['\r', '\n'] + rest
        } else if s[0] == '\r' {
            rest
        } else {
            seq![s[0]] + rest
        }
    }
}

/// The rendering of `s` under a newline style.
pub open spec fn rendered(s: Seq<char>, style: NewlineStyle) -> Seq<char> {
    match style {
        NewlineStyle::Unix => s,
        NewlineStyle::Windows => windows_text(s),
    }
}

/// How many times `c` occurs in `s`.
pub open spec fn count_char(s: Seq<char>, c: char) -> int
    decreases s.len(),
{
    if s.len() == 0 {
        0
    } else {
        (if s[0] == c {
            1int
        } else {
            0int
        }) + count_char(s.drop_first(), c)
    }
}

/// Windows rendering distributes over concatenation.
pub proof fn lemma_windows_concat(a: Seq<char>, b: Seq<char>)
    ensures
        windows_text(a + b) == windows_text(a) + windows_text(b),
    decreases a.len(),
{
    if a.len() == 0 {
        assert(a + b =~= b);
        assert(windows_text(a) + windows_text(b) =~= windows_text(b));
    } else {
        lemma_windows_concat(a.drop_first(), b);
        assert((a + b).drop_first() =~= a.drop_first() + b);
        if a[0] == '\n' {
            assert(seq!['\r', '\n'] + (windows_text(a.drop_first()) + windows_text(b)) =~= (
            seq!['\r', '\n'] + windows_text(a.drop_first())) + windows_text(b));
        } else if a[0] == '\r' {
        } else {
            assert(seq![a[0]] + (windows_text(a.drop_first()) + windows_text(b)) =~= (seq![a[0]]
                + windows_text(a.drop_first())) + windows_text(b));
        }
    }
}

/// Unix rendering is the identity: the emitted text is byte-identical to the
/// buffer.
pub proof fn lemma_unix_identity(s: Seq<char>)
    ensures
        rendered(s, NewlineStyle::Unix) == s,
{
}

/// Windows rendering is a clean round trip of line breaks: every carriage
/// return is immediately followed by a line feed (so no bare `\r` and no
/// `\r\r\n` survives), every line feed is immediately preceded by a carriage
/// return, and the number of line feeds is exactly that of the buffer — every
/// `\n` became exactly one `\r\n`.
pub proof fn lemma_windows_newlines(s: Seq<char>)
    ensures
        forall|i: int|
            0 <= i < windows_text(s).len() && #[trigger] windows_text(s)[i] == '\r' ==> i + 1
                < windows_text(s).len() && windows_text(s)[i + 1] == '\n',
        forall|i: int|
            0 <= i < windows_text(s).len() && #[trigger] windows_text(s)[i] == '\n' ==> 0 < i
                && windows_text(s)[i - 1] == '\r',
        count_char(windows_text(s), '\n') == count_char(s, '\n'),
    decreases s.len(),
{
    if s.len() == 0 {
    } else {
        lemma_windows_newlines(s.drop_first());
        let rest = windows_text(s.drop_first());
        if s[0] == '\n' {
            let w = seq!['\r', '\n'] + rest;
            assert(windows_text(s) == w);
            assert(w.drop_first().drop_first() =~= rest);
            assert(count_char(w, '\n') == count_char(w.drop_first(), '\n'));
            assert(count_char(w.drop_first(), '\n') == 1 + count_char(rest, '\n'));
            assert forall|i: int| 0 <= i < w.len() && #[trigger] w[i] == '\r' implies i + 1 < w.len() && w[i
                + 1] == '\n' by {
                if i >= 2 {
                    assert(w[i] == rest[i - 2]);
                    assert(rest[i - 2 + 1] == w[i + 1]);
                }
            }
            assert forall|i: int| 0 <= i < w.len() && #[trigger] w[i] == '\n' implies 0 < i && w[i - 1]
                == '\r' by {
                if i >= 2 {
                    assert(w[i] == rest[i - 2]);
                    assert(rest[i - 2 - 1] == w[i - 1]);
                }
            }
        } else if s[0] == '\r' {
            assert(windows_text(s) == rest);
            assert(count_char(s, '\n') == count_char(s.drop_first(), '\n'));
        } else {
            let w = seq![s[0]] + rest;
            assert(windows_text(s) == w);
            assert(w.drop_first() =~= rest);
            assert(count_char(w, '\n') == (if s[0] == '\n' {
                1int
            } else {
                0int
            }) + count_char(rest, '\n'));
            assert forall|i: int| 0 <= i < w.len() && #[trigger] w[i] == '\r' implies i + 1 < w.len() && w[i
                + 1] == '\n' by {
                assert(w[0] == s[0] && s[0] != '\r');
                if i >= 1 {
                    assert(w[i] == rest[i - 1]);
                    assert(rest[i - 1 + 1] == w[i + 1]);
                }
            }
            assert forall|i: int| 0 <= i < w.len() && #[trigger] w[i] == '\n' implies 0 < i && w[i - 1]
                == '\r' by {
                assert(w[0] == s[0] && s[0] != '\n');
                if i >= 1 {
                    assert(w[i] == rest[i - 1]);
                    if i >= 2 {
                        assert(rest[i - 1 - 1] == w[i - 1]);
                    } else {
                        assert(rest[0] == '\n');
                    }
                }
            }
        }
    }
}

/// Append one character to a string. Relies on `String::push` of std: it
/// appends the given character to the end of the string.
#[verifier::external_body]
pub fn push_char(s: &mut String, c: char)
    ensures
        final (s)@ == old(s)@ + seq![c],
{
    s.push(c)
}

/// Render `text` under the configured newline style, character by character.
pub fn system_newlines(text: &str, style: NewlineStyle) -> (r: String)
    ensures
        r@ == rendered(text@, style),
{
    match style {
        NewlineStyle::Unix => String::from_str(text),
        NewlineStyle::Windows => {
            let n: usize = text.unicode_len();
            let mut out = String::new();
            let mut i: usize = 0;
            while i < n
                invariant
                    n == text@.len(),
                    i <= n,
                    out@ == windows_text(text@.subrange(0, i as int)),
                decreases n - i,
            {
                let c: char = text.get_char(i);
                proof {
                    let pre = text@.subrange(0, i as int);
                    lemma_windows_concat(pre, seq![c]);
                    assert(text@.subrange(0, i + 1) =~= pre + seq![c]);
                    assert(seq![c].drop_first() =~= Seq::<char>::empty());
                    assert(windows_text(Seq::<char>::empty()) =~= Seq::<char>::empty());
                    assert(seq![c].len() == 1);
                }
                if c == '\n' {
                    out.append("\r\n");
                    proof {
                        reveal_strlit("\r\n");
                        assert(windows_text(seq![c]) =~= "\r\n"@);
                    }
                } else if c == '\r' {
                    proof {
                        assert(windows_text(seq![c]) =~= Seq::<char>::empty());
                    }
                } else {
                    push_char(&mut out, c);
                    proof {
                        assert(windows_text(seq![c]) =~= seq![c]);
                    }
                }
                i = i + 1;
            }
            proof {
                assert(text@.subrange(0, n as int) =~= text@);
            }
            out
        },
    }
}

} // verus!
