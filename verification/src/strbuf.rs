//! The append-only text buffer that accumulates each file's rewritten text.
//!
//! The buffer itself is `strings::string_buffer::StringBuffer`, a rope of
//! string nodes optimised for appending. Verified code sees it only through
//! the contracts below, stated over `sb_chars`, the name for the characters it
//! holds in order.

use vstd::prelude::*;

verus! {

#[verifier::external_type_specification]
#[verifier::external_body]
pub struct ExStringBuffer(strings::string_buffer::StringBuffer);

/// The characters held by a buffer, in append order.
pub uninterp spec fn sb_chars(b: strings::string_buffer::StringBuffer) -> Seq<char>;

/// Characters since the start of the last line of `s`: the whole length when
/// `s` has no line break.
pub open spec fn col_of(s: Seq<char>) -> int
    decreases s.len(),
{
    if s.len() == 0 {
        0
    } else if s[s.len() - 1] == '\n' {
        0
    } else {
        1 + col_of(s.drop_last())
    }
}

/// Do all characters of `s` encode as a single byte, so that byte counts and
/// character counts agree?
pub open spec fn ascii_only(s: Seq<char>) -> bool {
    forall|i: int| 0 <= i < s.len() ==> (s[i] as u32) < 128
}

/// Relies on `StringBuffer::with_capacity`: it creates an empty buffer; the
/// capacity is only a size hint.
#[verifier::external_body]
pub fn sb_with_capacity(capacity: usize) -> (r: strings::string_buffer::StringBuffer)
    ensures
        sb_chars(r) == Seq::<char>::empty(),
{
    strings::string_buffer::StringBuffer::with_capacity(capacity)
}

/// Relies on `StringBuffer::push_str`: it appends the text to the end of the
/// buffer's last node.
#[verifier::external_body]
pub fn sb_push_str(b: &mut strings::string_buffer::StringBuffer, text: &str)
    ensures
        sb_chars(*final (b)) == sb_chars(*old(b)) + text@,
{
    b.push_str(text)
}

/// Relies on `StringBuffer::cur_offset`: it returns the byte distance from the
/// start of the buffer's last line (the whole byte length when no line break
/// exists), which equals the character distance whenever every character is a
/// single byte.
#[verifier::external_body]
pub fn sb_cur_offset(b: &strings::string_buffer::StringBuffer) -> (r: usize)
    ensures
        ascii_only(sb_chars(*b)) ==> r == col_of(sb_chars(*b)),
{
    b.cur_offset()
}

/// Relies on `StringBuffer`'s `Display` impl: it writes the data of every node
/// in order, which is exactly the buffer's contents.
#[verifier::external_body]
pub fn sb_contents(b: &strings::string_buffer::StringBuffer) -> (r: String)
    ensures
        r@ == sb_chars(*b),
{
    format!("{}", b)
}

} // verus!
