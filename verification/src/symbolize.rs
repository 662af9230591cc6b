//! Ties the kernel and user-space lookups together into one "label this
//! instruction pointer" step, and carries the kernel/user/JIT/unknown
//! distinction through to the renderer for colour-coding.

use vstd::prelude::*;
use crate::text::{lower_hex, push_lower_hex, parse_hex_u64, lemma_lower_hex, law_lower_hex_parses_back};

verus! {

#[derive(Clone, Copy, Debug, PartialEq, Eq, Structural)]
pub enum FrameKind {
    Kernel,
    User,
    Jit,
    Unknown,
}

#[derive(Clone, Debug, PartialEq, Eq, Hash)]
pub enum Frame {
    Kernel(String),
    User(String),
    Jit(String),
    Unknown,
}

/// The label of a frame that no lookup resolved: `[unknown]`.
pub open spec fn unknown_label() -> Seq<char> {
    seq!['[', 'u', 'n', 'k', 'n', 'o', 'w', 'n', ']']
}

/// A symbol name with its offset: the bare name at offset 0, otherwise
/// `name+0x<offset in lower-case hex>`.
pub open spec fn offset_label(name: Seq<char>, offset: u64) -> Seq<char> {
    if offset == 0 {
        name
    } else {
        name + seq!['+', '0', 'x'] + lower_hex(offset as nat)
    }
}

/// The name and the offset can be read back from a label with an offset:
/// the label is the name, then `+0x`, then hexadecimal digits that hold no
/// `+` and parse back to the offset; so the last `+` of the label is where
/// the name ends.
pub proof fn law_label_reads_back(name: Seq<char>, offset: u64)
    requires
        offset != 0,
    ensures
        offset_label(name, offset).take(name.len() as int) == name,
        offset_label(name, offset).subrange(name.len() as int, (name.len() + 3) as int) == seq![
            '+',
            '0',
            'x',
        ],
        parse_hex_u64(offset_label(name, offset).skip((name.len() + 3) as int)) == Some(offset),
        forall|i: int|
            name.len() < i < offset_label(name, offset).len() ==> #[trigger] offset_label(
                name,
                offset,
            )[i] != '+',
{
    let l = offset_label(name, offset);
    let h = lower_hex(offset as nat);
    lemma_lower_hex(offset as nat);
    law_lower_hex_parses_back(offset);
    assert(l.take(name.len() as int) =~= name);
    assert(l.subrange(name.len() as int, (name.len() + 3) as int) =~= seq!['+', '0', 'x']);
    assert(l.skip((name.len() + 3) as int) =~= h);
    assert forall|i: int| name.len() < i < l.len() implies #[trigger] l[i] != '+' by {
        if i >= name.len() + 3 {
            assert(l[i] == h[i - name.len() - 3]);
        }
    }
}

/// A frame that a resolver labelled shows exactly the text it holds, for
/// every text (white space and all); a frame that none resolved shows
/// `[unknown]`.
pub proof fn law_label_is_the_held_text(text: String)
    ensures
        Frame::Kernel(text).label_spec() == text@,
        Frame::User(text).label_spec() == text@,
        Frame::Jit(text).label_spec() == text@,
        Frame::Unknown.label_spec() == seq!['[', 'u', 'n', 'k', 'n', 'o', 'w', 'n', ']'],
{
}

/// The kind of a frame is fixed by its variant alone, whatever text it
/// holds, and the four variants have four different kinds.
pub proof fn law_kind_follows_variant(text: String, other: String)
    ensures
        Frame::Kernel(text).kind_spec() == FrameKind::Kernel,
        Frame::User(text).kind_spec() == FrameKind::User,
        Frame::Jit(text).kind_spec() == FrameKind::Jit,
        Frame::Unknown.kind_spec() == FrameKind::Unknown,
        Frame::Jit(text).kind_spec() == Frame::Jit(other).kind_spec(),
        Frame::Kernel(text).kind_spec() != Frame::User(other).kind_spec(),
        Frame::Kernel(text).kind_spec() != Frame::Jit(other).kind_spec(),
        Frame::User(text).kind_spec() != Frame::Jit(other).kind_spec(),
{
}

/// A symbol at offset 0 is labelled with its bare name.
pub proof fn law_label_without_offset(name: Seq<char>)
    ensures
        offset_label(name, 0) == name,
{
}

impl Frame {
    /// The text the renderer shows for this frame.
    pub open spec fn label_spec(self) -> Seq<char> {
        match self {
            Frame::Kernel(s) => s@,
            Frame::User(s) => s@,
            Frame::Jit(s) => s@,
            Frame::Unknown => unknown_label(),
        }
    }

    /// Which resolver produced this frame.
    pub open spec fn kind_spec(self) -> FrameKind {
        match self {
            Frame::Kernel(_) => FrameKind::Kernel,
            Frame::User(_) => FrameKind::User,
            Frame::Jit(_) => FrameKind::Jit,
            Frame::Unknown => FrameKind::Unknown,
        }
    }

    pub fn label(&self) -> (s: String)
        ensures
            s@ == self.label_spec(),
            self matches Frame::Kernel(n) ==> s@ == n@,
            self matches Frame::User(n) ==> s@ == n@,
            self matches Frame::Jit(n) ==> s@ == n@,
            self is Unknown ==> s@ == seq!['[', 'u', 'n', 'k', 'n', 'o', 'w', 'n', ']'],
    {
        match self {
            Frame::Kernel(s) => s.clone(),
            Frame::User(s) => s.clone(),
            Frame::Jit(s) => s.clone(),
            Frame::Unknown => {
                let s = String::from_str("[unknown]");
                proof {
                    reveal_strlit("[unknown]");
                    assert(s@ =~= unknown_label());
                }
                s
            },
        }
    }

    pub fn kind(&self) -> (k: FrameKind)
        ensures
            k == self.kind_spec(),
            self is Kernel ==> k == FrameKind::Kernel,
            self is User ==> k == FrameKind::User,
            self is Jit ==> k == FrameKind::Jit,
            self is Unknown ==> k == FrameKind::Unknown,
    {
        match self {
            Frame::Kernel(_) => FrameKind::Kernel,
            Frame::User(_) => FrameKind::User,
            Frame::Jit(_) => FrameKind::Jit,
            Frame::Unknown => FrameKind::Unknown,
        }
    }
}

/// The frame for a kernel instruction pointer, given what the kernel
/// symbol table found for it (a name and the offset into that symbol),
/// or `Unknown` where it found nothing.
pub fn resolve_kernel(found: Option<(&str, u64)>) -> (frame: Frame)
    ensures
        match found {
            Some((name, offset)) => frame matches Frame::Kernel(s) && s@ == offset_label(
                name@,
                offset,
            ),
            None => frame is Unknown,
        },
{
    match found {
        Some((name, offset)) => Frame::Kernel(labeled(name.to_owned(), offset)),
        None => Frame::Unknown,
    }
}

/// The first step of labelling a user-space instruction pointer, given what
/// the process's ELF symbol tables found for it: the `User` frame where they
/// found a symbol, and `None` where they found nothing, so that the caller
/// asks a JIT engine's map file next (anonymous mappings, which hold
/// JIT-compiled code, have no ELF symbols) and finishes with `resolve_jit`.
pub fn resolve_user(user: Option<(String, u64)>) -> (frame: Option<Frame>)
    ensures
        match user {
            Some((name, offset)) => frame matches Some(Frame::User(s)) && s@ == offset_label(
                name@,
                offset,
            ),
            None => frame is None,
        },
{
    match user {
        Some((name, offset)) => Some(Frame::User(labeled(name, offset))),
        None => None,
    }
}

/// The second step, for an address that the ELF symbol tables did not
/// resolve: the `Jit` frame where the JIT map found a symbol, `Unknown`
/// where it found nothing either.
pub fn resolve_jit(jit: Option<(String, u64)>) -> (frame: Frame)
    ensures
        match jit {
            Some((name, offset)) => frame matches Frame::Jit(s) && s@ == offset_label(
                name@,
                offset,
            ),
            None => frame is Unknown,
        },
{
    match jit {
        Some((name, offset)) => Frame::Jit(labeled(name, offset)),
        None => Frame::Unknown,
    }
}

/// `name`, with `+0x<offset>` appended where the offset is not zero.
fn labeled(name: String, offset: u64) -> (s: String)
    ensures
        s@ == offset_label(name@, offset),
{
    if offset == 0 {
        name
    } else {
        let mut s = name;
        s.append("+0x");
        push_lower_hex(&mut s, offset);
        proof {
            reveal_strlit("+0x");
        }
        s
    }
}

} // verus!
