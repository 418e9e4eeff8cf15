//! The flattened device tree handed to Linux: setting its `chosen` node, which says
//! where the initramfs lies and how to boot.
//!
//! A device tree starts with a header of ten big-endian words:
//!
//! | Offset | Word                                 |
//! |--------|--------------------------------------|
//! | 0      | magic number                         |
//! | 4      | size of the whole                    |
//! | 8      | offset of the structure block        |
//! | 12     | offset of the strings block          |
//! | 16     | offset of the memory reservations    |
//! | 20     | version                              |
//! | 24     | last compatible version              |
//! | 28     | boot CPU                             |
//! | 32     | size of the strings block            |
//! | 36     | size of the structure block          |
//!
//! The structure block is a sequence of tokens: the start of a node with its name, a
//! property with the place of its name in the strings block and its value, the end of
//! a node, a filler, and the end of the block.
use vstd::prelude::*;
use crate::linux_vm::{LINUX_DTB_ADDR, LINUX_INITRD_ADDR};
use crate::text::{utf8, push_str, push_bytes, same_bytes};

verus! {

pub const FDT_MAGIC: u32 = 0xD00D_FEED;
pub const FDT_BEGIN_NODE: u32 = 1;
pub const FDT_END_NODE: u32 = 2;
pub const FDT_PROP: u32 = 3;
pub const FDT_NOP: u32 = 4;
pub const FDT_END: u32 = 9;

/// Words of the header.
pub const TOTAL_SIZE: usize = 4;
pub const OFF_STRUCT: usize = 8;
pub const OFF_STRINGS: usize = 12;
pub const SIZE_STRINGS: usize = 32;
pub const SIZE_STRUCT: usize = 36;
pub const HEADER_SIZE: usize = 40;

// ── Bytes ──────────────────────────────────────────────────────────────────

/// The big-endian number at `o`.
#[verifier::opaque]
pub open spec fn be32(s: Seq<u8>, o: int) -> int {
    0x100_0000 * s[o] + 0x1_0000 * s[o + 1] + 0x100 * s[o + 2] + s[o + 3]
}

/// `v` modulo 2^32 in big-endian order.
#[verifier::opaque]
pub open spec fn be_bytes(v: int) -> Seq<u8> {
    seq![
        (v / 0x100_0000 % 0x100) as u8,
        (v / 0x1_0000 % 0x100) as u8,
        (v / 0x100 % 0x100) as u8,
        (v % 0x100) as u8,
    ]
}

/// `s` with `bytes` written at `at`.
pub open spec fn overwrite(s: Seq<u8>, at: int, bytes: Seq<u8>) -> Seq<u8> {
    Seq::new(
        s.len(),
        |i: int|
            if at <= i < at + bytes.len() {
                bytes[i - at]
            } else {
                s[i]
            },
    )
}

/// A string with the zero byte that ends it.
pub open spec fn c_str(s: &str) -> Seq<u8> {
    utf8(s).push(0)
}

pub broadcast proof fn lemma_be_bytes_len(v: int)
    ensures
        #[trigger] be_bytes(v).len() == 4,
{
    reveal(be_bytes);
}

proof fn lemma_be32_same(s: Seq<u8>, t: Seq<u8>, o: int)
    requires
        forall|i: int| o <= i < o + 4 ==> s[i] == t[i],
    ensures
        be32(s, o) == be32(t, o),
{
    reveal(be32);
}

proof fn lemma_be32_range(s: Seq<u8>, o: int)
    ensures
        0 <= be32(s, o) < 0x1_0000_0000,
{
    reveal(be32);
}

proof fn lemma_four_bytes(v: int)
    ensures
        0x100_0000 * (v / 0x100_0000 % 0x100) + 0x1_0000 * (v / 0x1_0000 % 0x100) + 0x100 * (v / 0x100
            % 0x100) + v % 0x100 == v % 0x1_0000_0000,
{
    let q1 = v / 0x100;
    let q2 = q1 / 0x100;
    let q3 = q2 / 0x100;
    assert(v / 0x1_0000 == q2);
    assert(v / 0x100_0000 == q3);
    assert(v % 0x1_0000 == 0x100 * (q1 % 0x100) + v % 0x100);
    assert(v % 0x100_0000 == 0x1_0000 * (q2 % 0x100) + v % 0x1_0000);
    assert(v % 0x1_0000_0000 == 0x100_0000 * (q3 % 0x100) + v % 0x100_0000);
}

pub proof fn lemma_be_bytes(s: Seq<u8>, o: int, v: int)
    requires
        0 <= o,
        o + 4 <= s.len(),
        s.subrange(o, o + 4) == be_bytes(v),
    ensures
        be32(s, o) == v % 0x1_0000_0000,
{
    reveal(be32);
    reveal(be_bytes);
    let b = s.subrange(o, o + 4);
    assert(b[0] == s[o] && b[1] == s[o + 1] && b[2] == s[o + 2] && b[3] == s[o + 3]);
    lemma_four_bytes(v);
}

fn get_be32(s: &[u8], o: usize) -> (v: u32)
    requires
        o + 4 <= s@.len(),
    ensures
        v == be32(s@, o as int),
{
    proof {
        reveal(be32);
    }
    0x100_0000 * s[o] as u32 + 0x1_0000 * s[o + 1] as u32 + 0x100 * s[o + 2] as u32 + s[o + 3] as u32
}

fn push_be32(out: &mut Vec<u8>, v: u64)
    ensures
        final(out)@ == old(out)@ + be_bytes(v as int),
{
    let ghost before = out@;
    proof {
        reveal(be_bytes);
    }
    out.push((v / 0x100_0000 % 0x100) as u8);
    out.push((v / 0x1_0000 % 0x100) as u8);
    out.push((v / 0x100 % 0x100) as u8);
    out.push((v % 0x100) as u8);
    assert(out@ =~= before + be_bytes(v as int));
}

fn push_c_str(out: &mut Vec<u8>, s: &str)
    ensures
        final(out)@ == old(out)@ + c_str(s),
{
    let ghost before = out@;
    push_str(out, s);
    out.push(0);
    assert(out@ =~= before + c_str(s));
}

fn put(s: &mut [u8], at: usize, bytes: &Vec<u8>)
    requires
        at + bytes@.len() <= old(s)@.len(),
    ensures
        final(s)@ == overwrite(old(s)@, at as int, bytes@),
{
    let ghost before = s@;
    let n: usize = bytes.len();
    let mut i: usize = 0;
    assert(before.len() == s.len());
    while i < n
        invariant
            i <= n,
            n == bytes@.len(),
            before == old(s)@,
            s@.len() == before.len(),
            at + n <= before.len() <= usize::MAX,
            s@ == overwrite(before, at as int, bytes@.take(i as int)),
        decreases n - i,
    {
        s[at + i] = bytes[i];
        i = i + 1;
        assert(s@ =~= overwrite(before, at as int, bytes@.take(i as int)));
    }
    assert(bytes@.take(n as int) =~= bytes@);
    assert(s@ =~= overwrite(before, at as int, bytes@));
}

fn put_be32(s: &mut [u8], at: usize, v: u64)
    requires
        at + 4 <= old(s)@.len(),
    ensures
        final(s)@ == overwrite(old(s)@, at as int, be_bytes(v as int)),
{
    broadcast use lemma_be_bytes_len;

    let mut bytes: Vec<u8> = Vec::new();
    push_be32(&mut bytes, v);
    assert(bytes@ =~= be_bytes(v as int));
    put(s, at, &bytes);
}

// ── Tokens ─────────────────────────────────────────────────────────────────

/// A token of the structure block.
pub enum Token {
    /// A node of this name starts.
    Begin(Seq<u8>),
    /// A property: name and value.
    Prop(Seq<u8>, Seq<u8>),
    EndNode,
    Nop,
    End,
}

/// `n` rounded up to whole words.
pub open spec fn padded(n: int) -> int {
    (n + 3) / 4 * 4
}

/// Where the first zero byte lies; the length where there is none.
pub open spec fn zero_at(t: Seq<u8>) -> int
    decreases t.len(),
{
    if t.len() == 0 || t[0] == 0 {
        0
    } else {
        1 + zero_at(t.skip(1))
    }
}

/// The string in front of the first zero byte.
pub open spec fn c_string(t: Seq<u8>) -> Seq<u8> {
    t.take(zero_at(t))
}

/// The token that `t` starts with, and its length in bytes; `strings` is the strings
/// block.
#[verifier::opaque]
pub open spec fn token(t: Seq<u8>, strings: Seq<u8>) -> Option<(Token, int)> {
    if t.len() < 4 {
        None
    } else if be32(t, 0) == FDT_BEGIN_NODE {
        let n = zero_at(t.skip(4));
        if 4 + padded(n + 1) <= t.len() {
            Some((Token::Begin(t.subrange(4, 4 + n)), 4 + padded(n + 1)))
        } else {
            None
        }
    } else if be32(t, 0) == FDT_PROP {
        let len = be32(t, 4);
        let name = be32(t, 8);
        if 12 <= t.len() && 12 + padded(len) <= t.len() && name <= strings.len() && name + zero_at(
            strings.skip(name),
        ) < strings.len() {
            Some(
                (
                    Token::Prop(c_string(strings.skip(name)), t.subrange(12, 12 + len)),
                    12 + padded(len),
                ),
            )
        } else {
            None
        }
    } else if be32(t, 0) == FDT_END_NODE {
        Some((Token::EndNode, 4))
    } else if be32(t, 0) == FDT_NOP {
        Some((Token::Nop, 4))
    } else if be32(t, 0) == FDT_END {
        Some((Token::End, 4))
    } else {
        None
    }
}

pub open spec fn depth_after(k: Token, depth: int) -> int {
    match k {
        Token::Begin(_) => depth + 1,
        Token::EndNode => depth - 1,
        _ => depth,
    }
}

/// A token may stand where `depth` nodes are open; `begun` says whether the root has
/// started.
pub open spec fn allowed(k: Token, depth: int, begun: bool) -> bool {
    match k {
        Token::Begin(_) => depth > 0 || !begun,
        Token::Prop(_, _) | Token::EndNode => depth > 0,
        Token::Nop => true,
        Token::End => depth == 0 && begun,
    }
}

/// What is left of a structure block is well formed: one root, every node closed, and
/// the end mark last.
pub open spec fn well_formed(t: Seq<u8>, strings: Seq<u8>, depth: int, begun: bool) -> bool
    decreases t.len(),
    via well_formed_decreases
{
    match token(t, strings) {
        Some((k, n)) => {
            &&& allowed(k, depth, begun)
            &&& if k is End {
                n == t.len()
            } else {
                well_formed(t.skip(n), strings, depth_after(k, depth), begun || k is Begin)
            }
        },
        None => false,
    }
}

#[via_fn]
proof fn well_formed_decreases(t: Seq<u8>, strings: Seq<u8>, depth: int, begun: bool) {
    lemma_token_len(t, strings);
}

pub proof fn lemma_zero_at(t: Seq<u8>)
    ensures
        0 <= zero_at(t) <= t.len(),
        forall|i: int| 0 <= i < zero_at(t) ==> #[trigger] t[i] != 0,
        zero_at(t) < t.len() ==> t[zero_at(t)] == 0,
    decreases t.len(),
{
    if t.len() > 0 && t[0] != 0 {
        lemma_zero_at(t.skip(1));
        assert forall|i: int| 0 <= i < zero_at(t) implies #[trigger] t[i] != 0 by {
            if i > 0 {
                assert(t[i] == t.skip(1)[i - 1]);
            }
        }
    }
}

pub proof fn lemma_zero_at_is(t: Seq<u8>, n: int)
    requires
        0 <= n < t.len(),
        t[n] == 0,
        forall|i: int| 0 <= i < n ==> #[trigger] t[i] != 0,
    ensures
        zero_at(t) == n,
    decreases n,
{
    if n > 0 {
        let u = t.skip(1);
        assert forall|i: int| 0 <= i < n - 1 implies #[trigger] u[i] != 0 by {
            assert(u[i] == t[i + 1]);
        }
        lemma_zero_at_is(u, n - 1);
    }
}

pub proof fn lemma_token_len(t: Seq<u8>, strings: Seq<u8>)
    ensures
        token(t, strings) matches Some((k, n)) ==> 4 <= n <= t.len(),
{
    reveal(token);
    if t.len() >= 4 {
        lemma_zero_at(t.skip(4));
        lemma_be32_range(t, 4);
    }
}

// ── What is read from a device tree ────────────────────────────────────────

/// A node or a property. A node is named by its path: the names from the root's down.
pub enum Entry {
    Node(Seq<Seq<u8>>),
    /// The node, the property's name and its value.
    Prop(Seq<Seq<u8>>, Seq<u8>, Seq<u8>),
}

pub open spec fn path_after(k: Token, path: Seq<Seq<u8>>) -> Seq<Seq<u8>> {
    match k {
        Token::Begin(name) => path.push(name),
        Token::EndNode => path.drop_last(),
        _ => path,
    }
}

pub open spec fn entry_of(k: Token, path: Seq<Seq<u8>>) -> Seq<Entry> {
    match k {
        Token::Begin(name) => seq![Entry::Node(path.push(name))],
        Token::Prop(name, value) => seq![Entry::Prop(path, name, value)],
        _ => Seq::empty(),
    }
}

/// The nodes and properties of what is left of a structure block, inside the node
/// `path`.
pub open spec fn entries(t: Seq<u8>, strings: Seq<u8>, path: Seq<Seq<u8>>) -> Seq<Entry>
    decreases t.len(),
    via entries_decreases
{
    match token(t, strings) {
        Some((k, n)) => if k is End {
            Seq::empty()
        } else {
            entry_of(k, path) + entries(t.skip(n), strings, path_after(k, path))
        },
        None => Seq::empty(),
    }
}

#[via_fn]
proof fn entries_decreases(t: Seq<u8>, strings: Seq<u8>, path: Seq<Seq<u8>>) {
    lemma_token_len(t, strings);
}

/// The structure block.
pub open spec fn structure(dtb: Seq<u8>) -> Seq<u8> {
    dtb.subrange(be32(dtb, 8), be32(dtb, 8) + be32(dtb, 36))
}

/// The strings block.
pub open spec fn strings(dtb: Seq<u8>) -> Seq<u8> {
    dtb.subrange(be32(dtb, 12), be32(dtb, 12) + be32(dtb, 32))
}

/// The memory holds a device tree: both blocks lie in it, the structure block behind
/// the header, and it is well formed.
pub open spec fn valid(dtb: Seq<u8>) -> bool {
    &&& 40 <= dtb.len()
    &&& be32(dtb, 0) == FDT_MAGIC
    &&& 40 <= be32(dtb, 8)
    &&& be32(dtb, 8) + be32(dtb, 36) <= dtb.len()
    &&& be32(dtb, 12) + be32(dtb, 32) <= dtb.len()
    &&& well_formed(structure(dtb), strings(dtb), 0, false)
}

/// All nodes and properties, in order.
pub open spec fn listing(dtb: Seq<u8>) -> Seq<Entry> {
    entries(structure(dtb), strings(dtb), Seq::empty())
}

// ── What is set ────────────────────────────────────────────────────────────

/// The names appended to the strings block.
pub open spec fn new_strings() -> Seq<u8> {
    c_str("linux,initrd-start") + c_str("linux,initrd-end") + c_str("bootargs") + c_str("chosen")
}

/// The kernel command line.
pub open spec fn bootargs() -> Seq<u8> {
    c_str("console=tty1 console=ttyAMA0,115200 rdinit=/init panic=5")
}

/// A property: its length, where its name lies in the strings block, and its value.
pub open spec fn property(name_off: int, value: Seq<u8>) -> Seq<u8> {
    be_bytes(FDT_PROP as int) + be_bytes(value.len() as int) + be_bytes(name_off) + value
}

/// The three properties, where `names` is where the new names lie in the strings block.
pub open spec fn new_props(names: int, initrd_size: int) -> Seq<u8> {
    property(names, be_bytes(LINUX_INITRD_ADDR as int)) + property(
        names + 19,
        be_bytes(LINUX_INITRD_ADDR + initrd_size),
    ) + property(names + 36, bootargs()) + seq![0u8, 0u8, 0u8]
}

/// A `chosen` node with these properties.
pub open spec fn chosen_node(props: Seq<u8>) -> Seq<u8> {
    be_bytes(FDT_BEGIN_NODE as int) + c_str("chosen").push(0) + props + be_bytes(
        FDT_END_NODE as int,
    )
}

/// One of the three properties.
pub open spec fn is_new_name(name: Seq<u8>) -> bool {
    name == utf8("linux,initrd-start") || name == utf8("linux,initrd-end") || name == utf8(
        "bootargs",
    )
}

/// Whether the root's last child is called `chosen`, after a token.
pub open spec fn inside_after(k: Token, depth: int, inside: bool) -> bool {
    match k {
        Token::Begin(name) => if depth == 1 {
            name == utf8("chosen")
        } else {
            inside
        },
        _ => inside,
    }
}

/// Whether there is a `chosen` node, after a token. At the root's end there is one.
pub open spec fn seen_after(k: Token, depth: int, seen: bool) -> bool {
    match k {
        Token::Begin(name) => seen || (depth == 1 && name == utf8("chosen")),
        Token::EndNode => seen || depth == 1,
        _ => seen,
    }
}

/// What a token, with the bytes `text`, becomes. The properties follow the start of
/// the first `chosen` node of the root, and what it had of them is dropped; without
/// any such node, one is put in front of the root's end.
pub open spec fn emitted(
    k: Token,
    text: Seq<u8>,
    depth: int,
    inside: bool,
    seen: bool,
    props: Seq<u8>,
) -> Seq<u8> {
    match k {
        Token::Begin(name) => if depth == 1 && name == utf8("chosen") && !seen {
            text + props
        } else {
            text
        },
        Token::Prop(name, _) => if depth == 2 && inside && is_new_name(name) {
            Seq::empty()
        } else {
            text
        },
        Token::EndNode => if depth == 1 && !seen {
            chosen_node(props) + text
        } else {
            text
        },
        _ => text,
    }
}

/// What is left of a structure block with the properties set in the `chosen` node of
/// the root. `depth` nodes are open; `inside` says whether the last child of the root
/// is called `chosen`, and `seen` whether there has been one.
pub open spec fn rewritten(
    t: Seq<u8>,
    strings: Seq<u8>,
    depth: int,
    inside: bool,
    seen: bool,
    props: Seq<u8>,
) -> Seq<u8>
    decreases t.len(),
    via rewritten_decreases
{
    match token(t, strings) {
        Some((k, n)) => emitted(k, t.take(n), depth, inside, seen, props) + (if k is End {
            Seq::empty()
        } else {
            rewritten(
                t.skip(n),
                strings,
                depth_after(k, depth),
                inside_after(k, depth, inside),
                seen_after(k, depth, seen),
                props,
            )
        }),
        None => Seq::empty(),
    }
}

#[via_fn]
proof fn rewritten_decreases(
    t: Seq<u8>,
    strings: Seq<u8>,
    depth: int,
    inside: bool,
    seen: bool,
    props: Seq<u8>,
) {
    lemma_token_len(t, strings);
}

/// The structure block with the properties set.
pub open spec fn new_structure(dtb: Seq<u8>, initrd_size: int) -> Seq<u8> {
    rewritten(
        structure(dtb),
        strings(dtb),
        0,
        false,
        false,
        new_props(be32(dtb, 32), initrd_size),
    )
}

/// There is room for what is added, in the memory and in the header's words.
pub open spec fn room(dtb: Seq<u8>) -> bool {
    let end = be32(dtb, 8) + be32(dtb, 36) + be32(dtb, 32) + 172;
    end <= dtb.len() && end <= u32::MAX
}

/// The device tree with the properties set: the structure block stays where it is, the
/// strings block is moved behind it and grows by the new names.
pub open spec fn patched(dtb: Seq<u8>, initrd_size: int) -> Seq<u8> {
    let block = new_structure(dtb, initrd_size);
    let at = be32(dtb, 8) + block.len();
    let names = strings(dtb) + new_strings();
    let d1 = overwrite(dtb, be32(dtb, 8), block);
    let d2 = overwrite(d1, at, names);
    let d3 = overwrite(d2, 4, be_bytes(at + names.len()));
    let d4 = overwrite(d3, 12, be_bytes(at));
    let d5 = overwrite(d4, 32, be_bytes(names.len() as int));
    overwrite(d5, 36, be_bytes(block.len() as int))
}

proof fn lemma_c_str_len(s: &str)
    requires
        vstd::utf8::is_ascii_chars(s@),
    ensures
        c_str(s).len() == s@.len() + 1,
{
    vstd::utf8::is_ascii_chars_encode_utf8(s@);
}

proof fn lemma_lengths()
    ensures
        c_str("linux,initrd-start").len() == 19,
        c_str("linux,initrd-end").len() == 17,
        c_str("bootargs").len() == 9,
        c_str("chosen").len() == 7,
        new_strings().len() == 52,
        bootargs().len() == 57,
        forall|names: int, size: int| #[trigger] new_props(names, size).len() == 104,
        forall|props: Seq<u8>| #[trigger] chosen_node(props).len() == props.len() + 16,
{
    broadcast use lemma_be_bytes_len;

    reveal_strlit("linux,initrd-start");
    reveal_strlit("linux,initrd-end");
    reveal_strlit("bootargs");
    reveal_strlit("chosen");
    reveal_strlit("console=tty1 console=ttyAMA0,115200 rdinit=/init panic=5");
    lemma_c_str_len("linux,initrd-start");
    lemma_c_str_len("linux,initrd-end");
    lemma_c_str_len("bootargs");
    lemma_c_str_len("chosen");
    lemma_c_str_len("console=tty1 console=ttyAMA0,115200 rdinit=/init panic=5");
}

/// A structure block grows by a node at most.
proof fn lemma_rewritten_len(
    t: Seq<u8>,
    strings: Seq<u8>,
    depth: int,
    inside: bool,
    seen: bool,
    props: Seq<u8>,
)
    requires
        props.len() == 104,
    ensures
        rewritten(t, strings, depth, inside, seen, props).len() <= t.len() + (if seen {
            0int
        } else {
            120
        }),
    decreases t.len(),
{
    lemma_lengths();
    lemma_token_len(t, strings);
    if let Some((k, n)) = token(t, strings) {
        if !(k is End) {
            lemma_rewritten_len(
                t.skip(n),
                strings,
                depth_after(k, depth),
                inside_after(k, depth, inside),
                seen_after(k, depth, seen),
                props,
            );
        }
    }
}

// ── Reading and rewriting ──────────────────────────────────────────────────

/// What has to be known of a token to rewrite the block.
#[derive(Clone, Copy)]
enum Kind {
    /// Whether the node is called `chosen`.
    Begin(bool),
    /// Whether it is one of the three properties.
    Prop(bool),
    EndNode,
    Nop,
    End,
}

spec fn kind_of(k: Token) -> Kind {
    match k {
        Token::Begin(name) => Kind::Begin(name == utf8("chosen")),
        Token::Prop(name, _) => Kind::Prop(is_new_name(name)),
        Token::EndNode => Kind::EndNode,
        Token::Nop => Kind::Nop,
        Token::End => Kind::End,
    }
}

/// Where the first zero byte from `from` on lies.
fn find_zero(s: &[u8], from: usize) -> (end: usize)
    requires
        from <= s@.len(),
    ensures
        end == from + zero_at(s@.skip(from as int)),
        from <= end <= s@.len(),
{
    let mut i: usize = from;
    let n: usize = s.len();
    while i < n && s[i] != 0
        invariant
            from <= i <= n,
            n == s@.len(),
            from + zero_at(s@.skip(from as int)) == i + zero_at(s@.skip(i as int)),
        decreases n - i,
    {
        assert(s@.skip(i as int).skip(1) =~= s@.skip(i + 1));
        i = i + 1;
    }
    i
}

/// Whether the bytes from `from` to `to` are this string.
fn is_string(s: &[u8], from: usize, to: usize, name: &str) -> (r: bool)
    requires
        from <= to <= s@.len(),
    ensures
        r == (s@.subrange(from as int, to as int) == utf8(name)),
{
    let mut want: Vec<u8> = Vec::new();
    push_str(&mut want, name);
    assert(want@ =~= utf8(name));
    let part: Vec<u8> = copy_part(s, from, to);
    same_bytes(part.as_slice(), want.as_slice())
}

fn copy_part(s: &[u8], from: usize, to: usize) -> (out: Vec<u8>)
    requires
        from <= to <= s@.len(),
    ensures
        out@ == s@.subrange(from as int, to as int),
{
    let mut out: Vec<u8> = Vec::new();
    let mut i: usize = from;
    while i < to
        invariant
            from <= i <= to <= s@.len(),
            out@ == s@.subrange(from as int, i as int),
        decreases to - i,
    {
        out.push(s[i]);
        i = i + 1;
        assert(out@ =~= s@.subrange(from as int, i as int));
    }
    out
}

/// Reads the token at `p` of a structure block.
fn read_token(block: &[u8], names: &[u8], p: usize) -> (r: Option<(Kind, usize)>)
    requires
        p <= block@.len(),
    ensures
        match token(block@.skip(p as int), names@) {
            Some((k, n)) => r matches Some((kind, len)) && kind == kind_of(k) && len == n,
            None => r is None,
        },
{
    reveal(token);
    let ghost t = block@.skip(p as int);
    let left: usize = block.len() - p;
    if left < 4 {
        return None;
    }
    proof {
        lemma_be32_shift(block@, p as int, 0);
    }
    let mark: u32 = get_be32(block, p);
    if mark == FDT_BEGIN_NODE {
        assert(t.skip(4) =~= block@.skip(p + 4));
        proof {
            lemma_zero_at(t.skip(4));
        }
        let end: usize = find_zero(block, p + 4);
        let n: usize = end - (p + 4);
        if n >= left - 4 {
            return None;
        }
        let size: usize = n / 4 * 4 + 4;
        if size > left - 4 {
            return None;
        }
        assert(t.subrange(4, 4 + n) =~= block@.subrange(p + 4, end as int));
        Some((Kind::Begin(is_string(block, p + 4, end, "chosen")), 4 + size))
    } else if mark == FDT_PROP {
        if left < 12 {
            return None;
        }
        proof {
            lemma_be32_shift(block@, p as int, 4);
            lemma_be32_shift(block@, p as int, 8);
        }
        let len: u32 = get_be32(block, p + 4);
        let name: u32 = get_be32(block, p + 8);
        let size: u64 = (len as u64 + 3) / 4 * 4;
        if size > (left - 12) as u64 || name as u64 > names.len() as u64 {
            return None;
        }
        let from: usize = name as usize;
        let end: usize = find_zero(names, from);
        if end >= names.len() {
            return None;
        }
        assert(c_string(names@.skip(from as int)) =~= names@.subrange(from as int, end as int));
        let ours: bool = is_string(names, from, end, "linux,initrd-start") || is_string(
            names,
            from,
            end,
            "linux,initrd-end",
        ) || is_string(names, from, end, "bootargs");
        Some((Kind::Prop(ours), 12 + size as usize))
    } else if mark == FDT_END_NODE {
        Some((Kind::EndNode, 4))
    } else if mark == FDT_NOP {
        Some((Kind::Nop, 4))
    } else if mark == FDT_END {
        Some((Kind::End, 4))
    } else {
        None
    }
}

proof fn lemma_be32_shift(s: Seq<u8>, p: int, o: int)
    requires
        0 <= p,
        0 <= o,
        p + o + 4 <= s.len(),
    ensures
        be32(s.skip(p), o) == be32(s, p + o),
{
    reveal(be32);
}

/// Appends what a token becomes; it lies from `p` to `end`.
fn emit(
    out: &mut Vec<u8>,
    kind: Kind,
    block: &[u8],
    p: usize,
    end: usize,
    at: &Place,
    props: &Vec<u8>,
)
    requires
        p <= end <= block@.len(),
    ensures
        forall|k: Token|
            kind == kind_of(k) ==> final(out)@ == old(out)@ + #[trigger] emitted(
                k,
                block@.subrange(p as int, end as int),
                at.depth as int,
                at.inside,
                at.seen,
                props@,
            ),
{
    let ghost before = out@;
    let text: Vec<u8> = copy_part(block, p, end);
    let dropped: bool = match kind {
        Kind::Prop(ours) => at.depth == 2 && at.inside && ours,
        _ => false,
    };
    if dropped {
        assert(out@ =~= before + Seq::empty());
        return;
    }
    let last: bool = match kind {
        Kind::EndNode => at.depth == 1 && !at.seen,
        _ => false,
    };
    if last {
        let node: Vec<u8> = get_chosen_node(props);
        push_bytes(out, node.as_slice());
    }
    push_bytes(out, text.as_slice());
    let first: bool = match kind {
        Kind::Begin(chosen) => at.depth == 1 && chosen && !at.seen,
        _ => false,
    };
    if first {
        push_bytes(out, props.as_slice());
    }
    assert(first ==> out@ =~= before + (text@ + props@));
    assert(last ==> out@ =~= before + (chosen_node(props@) + text@));
}

/// Where the rewriting stands.
#[derive(Clone, Copy)]
struct Place {
    depth: usize,
    begun: bool,
    inside: bool,
    seen: bool,
}

impl Place {
    fn after(self, kind: Kind) -> (next: Place)
        requires
            self.depth < usize::MAX,
        ensures
            forall|k: Token|
                kind == kind_of(k) && #[trigger] allowed(k, self.depth as int, self.begun) ==> {
                    &&& next.depth == depth_after(k, self.depth as int)
                    &&& next.begun == (self.begun || k is Begin)
                    &&& next.inside == inside_after(k, self.depth as int, self.inside)
                    &&& next.seen == seen_after(k, self.depth as int, self.seen)
                },
            next.depth <= self.depth + 1,
    {
        match kind {
            Kind::Begin(chosen) => Place {
                depth: self.depth + 1,
                begun: true,
                inside: if self.depth == 1 {
                    chosen
                } else {
                    self.inside
                },
                seen: self.seen || (self.depth == 1 && chosen),
            },
            Kind::EndNode => if self.depth == 0 {
                self
            } else {
                Place { depth: self.depth - 1, seen: self.seen || self.depth == 1, ..self }
            },
            _ => self,
        }
    }

    fn allows(self, kind: Kind) -> (r: bool)
        ensures
            forall|k: Token|
                kind == kind_of(k) ==> r == #[trigger] allowed(k, self.depth as int, self.begun),
    {
        match kind {
            Kind::Begin(_) => self.depth > 0 || !self.begun,
            Kind::Prop(_) | Kind::EndNode => self.depth > 0,
            Kind::Nop => true,
            Kind::End => self.depth == 0 && self.begun,
        }
    }
}

/// What [`rewritten`] says from a place on.
spec fn rewritten_at(t: Seq<u8>, names: Seq<u8>, at: Place, props: Seq<u8>) -> Seq<u8> {
    rewritten(t, names, at.depth as int, at.inside, at.seen, props)
}

/// The structure block with the properties set, if it is well formed.
fn rewrite(block: &[u8], names: &[u8], props: &Vec<u8>) -> (r: Option<Vec<u8>>)
    ensures
        match r {
            Some(out) => well_formed(block@, names@, 0, false) && out@ == rewritten(
                block@,
                names@,
                0,
                false,
                false,
                props@,
            ),
            None => !well_formed(block@, names@, 0, false),
        },
{
    let mut out: Vec<u8> = Vec::new();
    let mut p: usize = 0;
    let mut at: Place = Place { depth: 0, begun: false, inside: false, seen: false };
    let total: usize = block.len();
    let ghost whole = rewritten_at(block@, names@, at, props@);
    assert(block@.skip(0) =~= block@);
    assert(out@ + whole =~= whole);
    loop
        invariant
            p <= total == block@.len(),
            at.depth <= p,
            well_formed(block@, names@, 0, false) == well_formed(
                block@.skip(p as int),
                names@,
                at.depth as int,
                at.begun,
            ),
            whole == rewritten(block@, names@, 0, false, false, props@),
            whole == out@ + rewritten_at(block@.skip(p as int), names@, at, props@),
        decreases total - p,
    {
        let ghost t = block@.skip(p as int);
        let ghost before = out@;
        let (kind, n): (Kind, usize) = match read_token(block, names, p) {
            Some(r) => r,
            None => return None,
        };
        let ghost k = token(t, names@)->Some_0.0;
        proof {
            lemma_token_len(t, names@);
            assert(t.skip(n as int) =~= block@.skip(p + n));
            assert(t.take(n as int) =~= block@.subrange(p as int, p + n));
        }
        let fine: bool = at.allows(kind);
        assert(fine == allowed(k, at.depth as int, at.begun));
        if !fine {
            return None;
        }
        let ghost text = emitted(k, t.take(n as int), at.depth as int, at.inside, at.seen, props@);
        emit(&mut out, kind, block, p, p + n, &at, props);
        assert(out@ == before + text);
        if let Kind::End = kind {
            assert(whole =~= before + text);
            return if n == total - p {
                Some(out)
            } else {
                None
            };
        }
        proof {
            let rest = rewritten(
                t.skip(n as int),
                names@,
                depth_after(k, at.depth as int),
                inside_after(k, at.depth as int, at.inside),
                seen_after(k, at.depth as int, at.seen),
                props@,
            );
            assert(whole == before + (text + rest));
            assert(before + (text + rest) =~= before + text + rest);
        }
        at = at.after(kind);
        p = p + n;
    }
}

fn get_new_strings() -> (out: Vec<u8>)
    ensures
        out@ == new_strings(),
{
    let mut out: Vec<u8> = Vec::new();
    push_c_str(&mut out, "linux,initrd-start");
    push_c_str(&mut out, "linux,initrd-end");
    push_c_str(&mut out, "bootargs");
    push_c_str(&mut out, "chosen");
    assert(out@ =~= new_strings());
    out
}

fn get_new_props(names: u64, initrd_size: u64) -> (out: Vec<u8>)
    requires
        names + 36 <= u64::MAX,
        LINUX_INITRD_ADDR + initrd_size <= u64::MAX,
    ensures
        out@ == new_props(names as int, initrd_size as int),
{
    broadcast use lemma_be_bytes_len;

    let mut out: Vec<u8> = Vec::new();
    push_be32(&mut out, FDT_PROP as u64);
    push_be32(&mut out, 4);
    push_be32(&mut out, names);
    push_be32(&mut out, LINUX_INITRD_ADDR as u64);
    push_be32(&mut out, FDT_PROP as u64);
    push_be32(&mut out, 4);
    push_be32(&mut out, names + 19);
    push_be32(&mut out, LINUX_INITRD_ADDR as u64 + initrd_size);
    push_be32(&mut out, FDT_PROP as u64);
    push_be32(&mut out, 57);
    push_be32(&mut out, names + 36);
    push_c_str(&mut out, "console=tty1 console=ttyAMA0,115200 rdinit=/init panic=5");
    out.push(0);
    out.push(0);
    out.push(0);
    proof {
        lemma_lengths();
        assert(out@ =~= new_props(names as int, initrd_size as int));
    }
    out
}

fn get_chosen_node(props: &Vec<u8>) -> (out: Vec<u8>)
    ensures
        out@ == chosen_node(props@),
{
    let mut out: Vec<u8> = Vec::new();
    push_be32(&mut out, FDT_BEGIN_NODE as u64);
    push_c_str(&mut out, "chosen");
    out.push(0);
    push_bytes(&mut out, props.as_slice());
    push_be32(&mut out, FDT_END_NODE as u64);
    assert(out@ =~= chosen_node(props@));
    out
}

/// The memory with the `chosen` node set, where it holds a device tree that can grow.
pub open spec fn set_up(dtb: Seq<u8>, initrd_size: int) -> Seq<u8> {
    if valid(dtb) && room(dtb) {
        patched(dtb, initrd_size)
    } else {
        dtb
    }
}

/// Sets the `chosen` node of the device tree in `dtb`, the memory from
/// [`LINUX_DTB_ADDR`] on: where the initramfs of `initrd_size` bytes lies, and the
/// kernel command line. A `chosen` node that is there already is patched; where there
/// is none, one is added to the root. What is not a valid device tree, or has no room
/// to grow, stays as it is. Returns where the device tree lies.
pub fn setup_dtb(dtb: &mut [u8], initrd_size: usize) -> (addr: usize)
    requires
        LINUX_INITRD_ADDR + initrd_size <= usize::MAX,
    ensures
        addr == LINUX_DTB_ADDR,
        addr == 0x3B50_0000,
        final(dtb)@ == (if valid(old(dtb)@) && room(old(dtb)@) {
            patched(old(dtb)@, initrd_size as int)
        } else {
            old(dtb)@
        }),
        final(dtb)@ == set_up(old(dtb)@, initrd_size as int),
{
    let ghost before = dtb@;
    assert(before.len() == dtb.len());
    let len: u64 = dtb.len() as u64;
    if len < 40 || get_be32(dtb, 0) != FDT_MAGIC {
        return LINUX_DTB_ADDR;
    }
    let off_struct: u64 = get_be32(dtb, OFF_STRUCT) as u64;
    let off_strings: u64 = get_be32(dtb, OFF_STRINGS) as u64;
    let size_strings: u64 = get_be32(dtb, SIZE_STRINGS) as u64;
    let size_struct: u64 = get_be32(dtb, SIZE_STRUCT) as u64;
    let most: u64 = off_struct + size_struct + size_strings + 172;
    if off_struct < HEADER_SIZE as u64 || off_strings + size_strings > len || most > len || most
        > u32::MAX as u64 {
        return LINUX_DTB_ADDR;
    }
    let block: Vec<u8> = copy_part(
        dtb,
        off_struct as usize,
        (off_struct + size_struct) as usize,
    );
    let mut names: Vec<u8> = copy_part(
        dtb,
        off_strings as usize,
        (off_strings + size_strings) as usize,
    );
    let props: Vec<u8> = get_new_props(size_strings, initrd_size as u64);
    proof {
        lemma_lengths();
        lemma_rewritten_len(block@, names@, 0, false, false, props@);
    }
    let out: Vec<u8> = match rewrite(block.as_slice(), names.as_slice(), &props) {
        Some(out) => out,
        None => return LINUX_DTB_ADDR,
    };
    let added: Vec<u8> = get_new_strings();
    push_bytes(&mut names, added.as_slice());
    let at: u64 = off_struct + out.len() as u64;
    put(dtb, off_struct as usize, &out);
    put(dtb, at as usize, &names);
    put_be32(dtb, TOTAL_SIZE, at + names.len() as u64);
    put_be32(dtb, OFF_STRINGS, at);
    put_be32(dtb, SIZE_STRINGS, names.len() as u64);
    put_be32(dtb, SIZE_STRUCT, out.len() as u64);
    assert(dtb@ == patched(before, initrd_size as int));
    LINUX_DTB_ADDR
}

// ── What is read back ──────────────────────────────────────────────────────

/// The path of a child of the root called `chosen`.
pub open spec fn is_chosen_path(path: Seq<Seq<u8>>) -> bool {
    path.len() == 2 && path[1] == utf8("chosen")
}

/// A `chosen` node of the root.
pub open spec fn is_chosen(e: Entry) -> bool {
    e matches Entry::Node(path) && is_chosen_path(path)
}

/// One of the three properties of a `chosen` node of the root.
pub open spec fn is_set(e: Entry) -> bool {
    e matches Entry::Prop(path, name, _) && is_chosen_path(path) && is_new_name(name)
}

/// Neither of these.
pub open spec fn is_kept(e: Entry) -> bool {
    !is_chosen(e) && !is_set(e)
}

#[verifier::opaque]
pub open spec fn chosen_nodes(es: Seq<Entry>) -> Seq<Entry> {
    es.filter(|e: Entry| is_chosen(e))
}

#[verifier::opaque]
pub open spec fn set_props(es: Seq<Entry>) -> Seq<Entry> {
    es.filter(|e: Entry| is_set(e))
}

#[verifier::opaque]
pub open spec fn kept(es: Seq<Entry>) -> Seq<Entry> {
    es.filter(|e: Entry| is_kept(e))
}

/// The three properties in a node.
#[verifier::opaque]
pub open spec fn wanted(path: Seq<Seq<u8>>, initrd_size: int) -> Seq<Entry> {
    seq![
        Entry::Prop(path, utf8("linux,initrd-start"), be_bytes(LINUX_INITRD_ADDR as int)),
        Entry::Prop(path, utf8("linux,initrd-end"), be_bytes(LINUX_INITRD_ADDR + initrd_size)),
        Entry::Prop(path, utf8("bootargs"), bootargs()),
    ]
}

/// Reading goes on behind a token.
pub proof fn lemma_step(
    x: Seq<u8>,
    rest: Seq<u8>,
    names: Seq<u8>,
    k: Token,
    path: Seq<Seq<u8>>,
    depth: int,
    begun: bool,
)
    requires
        token(x + rest, names) == Some((k, x.len() as int)),
        !(k is End),
    ensures
        entries(x + rest, names, path) == entry_of(k, path) + entries(
            rest,
            names,
            path_after(k, path),
        ),
        well_formed(x + rest, names, depth, begun) == (allowed(k, depth, begun) && well_formed(
            rest,
            names,
            depth_after(k, depth),
            begun || k is Begin,
        )),
{
    assert((x + rest).skip(x.len() as int) =~= rest);
}

/// A token is read from its own bytes and its name.
proof fn lemma_token_copy(t: Seq<u8>, names: Seq<u8>, rest: Seq<u8>, more: Seq<u8>)
    ensures
        token(t, names) matches Some((k, n)) ==> token(t.take(n) + rest, names + more) == Some(
            (k, n),
        ),
{
    reveal(token);
    lemma_token_len(t, names);
    if let Some((k, n)) = token(t, names) {
        let u = t.take(n) + rest;
        assert forall|i: int| 0 <= i < n implies #[trigger] u[i] == t[i] by {}
        lemma_be32_same(u, t, 0);
        match k {
            Token::Begin(_) => {
                let z = zero_at(t.skip(4));
                lemma_zero_at(t.skip(4));
                assert(t.skip(4)[z] == 0);
                assert forall|i: int| 0 <= i <= z implies #[trigger] u.skip(4)[i] == t.skip(4)[i] by {}
                lemma_zero_at_is(u.skip(4), z);
                assert(u.subrange(4, 4 + z) =~= t.subrange(4, 4 + z));
            },
            Token::Prop(_, _) => {
                lemma_be32_range(t, 4);
                lemma_be32_range(t, 8);
                lemma_be32_same(u, t, 4);
                lemma_be32_same(u, t, 8);
                let len = be32(t, 4);
                let s = names.skip(be32(t, 8));
                let s2 = (names + more).skip(be32(t, 8));
                lemma_zero_at(s);
                assert forall|i: int| 0 <= i <= zero_at(s) implies #[trigger] s2[i] == s[i] by {}
                lemma_zero_at_is(s2, zero_at(s));
                assert(c_string(s2) =~= c_string(s));
                assert(u.subrange(12, 12 + len) =~= t.subrange(12, 12 + len));
            },
            _ => {},
        }
    }
}

/// A string as it is stored is read back.
proof fn lemma_c_string(t: Seq<u8>, name: &str)
    requires
        vstd::utf8::is_ascii_chars(name@),
        forall|i: int| 0 <= i < name@.len() ==> #[trigger] name@[i] != '\0',
        c_str(name).is_prefix_of(t),
    ensures
        zero_at(t) == utf8(name).len(),
        c_string(t) == utf8(name),
        utf8(name).len() < t.len(),
{
    vstd::utf8::is_ascii_chars_encode_utf8(name@);
    let n = utf8(name).len() as int;
    assert(c_str(name)[n] == 0);
    assert forall|i: int| 0 <= i < n implies #[trigger] t[i] == utf8(name)[i] && t[i] != 0 by {
        assert(t[i] == c_str(name)[i]);
        assert(name@[i] != '\0');
    }
    lemma_zero_at_is(t, n);
    assert(c_string(t) =~= utf8(name));
}

/// The new names are found behind the old ones.
proof fn lemma_new_names(names: Seq<u8>)
    ensures
        ({
            let all = names + new_strings();
            let n = names.len() as int;
            &&& n + zero_at(all.skip(n)) < all.len()
            &&& c_string(all.skip(n)) == utf8("linux,initrd-start")
            &&& n + 19 + zero_at(all.skip(n + 19)) < all.len()
            &&& c_string(all.skip(n + 19)) == utf8("linux,initrd-end")
            &&& n + 36 + zero_at(all.skip(n + 36)) < all.len()
            &&& c_string(all.skip(n + 36)) == utf8("bootargs")
        }),
{
    lemma_lengths();
    reveal_strlit("linux,initrd-start");
    reveal_strlit("linux,initrd-end");
    reveal_strlit("bootargs");
    let all = names + new_strings();
    let n = names.len() as int;
    assert(c_str("linux,initrd-start").is_prefix_of(all.skip(n)));
    lemma_c_string(all.skip(n), "linux,initrd-start");
    assert(c_str("linux,initrd-end").is_prefix_of(all.skip(n + 19)));
    lemma_c_string(all.skip(n + 19), "linux,initrd-end");
    assert(c_str("bootargs").is_prefix_of(all.skip(n + 36)));
    lemma_c_string(all.skip(n + 36), "bootargs");
}

/// A stored property is read back.
pub proof fn lemma_token_prop(
    off: int,
    value: Seq<u8>,
    pad: Seq<u8>,
    rest: Seq<u8>,
    names: Seq<u8>,
    name: Seq<u8>,
)
    requires
        0 <= off < 0x1_0000_0000,
        value.len() < 0x1_0000_0000,
        value.len() + pad.len() == padded(value.len() as int),
        off <= names.len(),
        off + zero_at(names.skip(off)) < names.len(),
        c_string(names.skip(off)) == name,
    ensures
        token((property(off, value) + pad) + rest, names) == Some(
            (Token::Prop(name, value), (property(off, value) + pad).len() as int),
        ),
{
    broadcast use lemma_be_bytes_len;

    reveal(token);
    let p = property(off, value);
    let u = p + pad + rest;
    assert(u.subrange(0, 4) =~= be_bytes(FDT_PROP as int));
    assert(u.subrange(4, 8) =~= be_bytes(value.len() as int));
    assert(u.subrange(8, 12) =~= be_bytes(off));
    assert(u.subrange(12, 12int + value.len()) =~= value);
    lemma_be_bytes(u, 0, FDT_PROP as int);
    lemma_be_bytes(u, 4, value.len() as int);
    lemma_be_bytes(u, 8, off);
}

/// The three properties are read back.
proof fn lemma_props(
    names: Seq<u8>,
    initrd_size: int,
    rest: Seq<u8>,
    path: Seq<Seq<u8>>,
    depth: int,
    begun: bool,
)
    requires
        names.len() + 52 < 0x1_0000_0000,
        depth > 0,
    ensures
        ({
            let all = names + new_strings();
            let u = new_props(names.len() as int, initrd_size) + rest;
            &&& entries(u, all, path) == wanted(path, initrd_size) + entries(rest, all, path)
            &&& well_formed(u, all, depth, begun) == well_formed(rest, all, depth, begun)
        }),
{
    broadcast use lemma_be_bytes_len;

    lemma_lengths();
    lemma_new_names(names);
    let all = names + new_strings();
    let n = names.len() as int;
    let none = Seq::<u8>::empty();
    let pad = seq![0u8, 0u8, 0u8];
    let v1 = be_bytes(LINUX_INITRD_ADDR as int);
    let v2 = be_bytes(LINUX_INITRD_ADDR + initrd_size);
    let x1 = property(n, v1) + none;
    let x2 = property(n + 19, v2) + none;
    let x3 = property(n + 36, bootargs()) + pad;
    let u = new_props(n, initrd_size) + rest;
    assert(u =~= x1 + (x2 + (x3 + rest)));
    lemma_token_prop(n, v1, none, x2 + (x3 + rest), all, utf8("linux,initrd-start"));
    lemma_token_prop(n + 19, v2, none, x3 + rest, all, utf8("linux,initrd-end"));
    lemma_token_prop(n + 36, bootargs(), pad, rest, all, utf8("bootargs"));
    let k1 = Token::Prop(utf8("linux,initrd-start"), v1);
    let k2 = Token::Prop(utf8("linux,initrd-end"), v2);
    let k3 = Token::Prop(utf8("bootargs"), bootargs());
    lemma_step(x1, x2 + (x3 + rest), all, k1, path, depth, begun);
    lemma_step(x2, x3 + rest, all, k2, path, depth, begun);
    lemma_step(x3, rest, all, k3, path, depth, begun);
    reveal(wanted);
    assert(entries(u, all, path) =~= wanted(path, initrd_size) + entries(rest, all, path));
}

/// The added node is read back.
proof fn lemma_node(names: Seq<u8>, initrd_size: int, rest: Seq<u8>, path: Seq<Seq<u8>>)
    requires
        names.len() + 52 < 0x1_0000_0000,
        path.len() == 1,
    ensures
        ({
            let all = names + new_strings();
            let u = chosen_node(new_props(names.len() as int, initrd_size)) + rest;
            let own = path.push(utf8("chosen"));
            &&& entries(u, all, path) == seq![Entry::Node(own)] + wanted(own, initrd_size)
                + entries(rest, all, path)
            &&& well_formed(u, all, 1, true) == well_formed(rest, all, 1, true)
        }),
{
    broadcast use lemma_be_bytes_len;

    lemma_lengths();
    let all = names + new_strings();
    let props = new_props(names.len() as int, initrd_size);
    let own = path.push(utf8("chosen"));
    let x1 = be_bytes(FDT_BEGIN_NODE as int) + c_str("chosen").push(0);
    let x3 = be_bytes(FDT_END_NODE as int);
    let u = chosen_node(props) + rest;
    assert(u =~= x1 + (props + (x3 + rest)));
    assert(token(u, all) == Some((Token::Begin(utf8("chosen")), 12int))) by {
        reveal(token);
        reveal_strlit("chosen");
        assert(u.subrange(0, 4) =~= be_bytes(FDT_BEGIN_NODE as int));
        lemma_be_bytes(u, 0, FDT_BEGIN_NODE as int);
        assert(c_str("chosen").is_prefix_of(u.skip(4)));
        lemma_c_string(u.skip(4), "chosen");
        assert(u.subrange(4, 10) =~= utf8("chosen"));
    }
    assert(token(x3 + rest, all) == Some((Token::EndNode, 4int))) by {
        reveal(token);
        assert((x3 + rest).subrange(0, 4) =~= x3);
        lemma_be_bytes(x3 + rest, 0, FDT_END_NODE as int);
    }
    lemma_step(x1, props + (x3 + rest), all, Token::Begin(utf8("chosen")), path, 1, true);
    lemma_props(names, initrd_size, x3 + rest, own, 2, true);
    lemma_step(x3, rest, all, Token::EndNode, own, 2, true);
    assert(own.drop_last() =~= path);
    assert(entries(u, all, path) =~= seq![Entry::Node(own)] + wanted(own, initrd_size) + entries(
        rest,
        all,
        path,
    ));
}

proof fn lemma_parts(a: Seq<Entry>, b: Seq<Entry>)
    ensures
        chosen_nodes(a + b) == chosen_nodes(a) + chosen_nodes(b),
        set_props(a + b) == set_props(a) + set_props(b),
        kept(a + b) == kept(a) + kept(b),
{
    reveal(chosen_nodes);
    reveal(set_props);
    reveal(kept);
    Seq::filter_distributes_over_add(a, b, |e: Entry| is_chosen(e));
    Seq::filter_distributes_over_add(a, b, |e: Entry| is_set(e));
    Seq::filter_distributes_over_add(a, b, |e: Entry| is_kept(e));
}

proof fn lemma_none()
    ensures
        chosen_nodes(Seq::empty()).len() == 0,
        set_props(Seq::empty()).len() == 0,
        kept(Seq::empty()).len() == 0,
{
    reveal(chosen_nodes);
    reveal(set_props);
    reveal(kept);
    reveal(Seq::filter);
}

proof fn lemma_one(e: Entry)
    ensures
        chosen_nodes(seq![e]) == if is_chosen(e) {
            seq![e]
        } else {
            Seq::empty()
        },
        set_props(seq![e]) == if is_set(e) {
            seq![e]
        } else {
            Seq::empty()
        },
        kept(seq![e]) == if is_kept(e) {
            seq![e]
        } else {
            Seq::empty()
        },
{
    reveal(chosen_nodes);
    reveal(set_props);
    reveal(kept);
    reveal_with_fuel(Seq::filter, 2);
    assert(seq![e].drop_last() =~= Seq::empty());
    assert(seq![e].drop_last().push(e) =~= seq![e]);
}

proof fn lemma_wanted(path: Seq<Seq<u8>>, initrd_size: int)
    requires
        is_chosen_path(path),
    ensures
        chosen_nodes(wanted(path, initrd_size)).len() == 0,
        set_props(wanted(path, initrd_size)) == wanted(path, initrd_size),
        kept(wanted(path, initrd_size)).len() == 0,
{
    reveal(wanted);
    let w = wanted(path, initrd_size);
    lemma_one(w[0]);
    lemma_one(w[1]);
    lemma_one(w[2]);
    lemma_parts(seq![w[0]], seq![w[1]]);
    lemma_parts(seq![w[0]] + seq![w[1]], seq![w[2]]);
    assert(w =~= seq![w[0]] + seq![w[1]] + seq![w[2]]);
}

/// What became of the entries: those that have nothing to do with the properties are
/// the same, the properties stand in a node `chosen` of the root once, and there is
/// such a node. Where `seen`, all that has happened before.
#[verifier::opaque]
spec fn became(
    before: Seq<Entry>,
    after: Seq<Entry>,
    root: Seq<u8>,
    initrd_size: int,
    seen: bool,
) -> bool {
    &&& kept(after) == kept(before)
    &&& set_props(after) == if seen {
        Seq::empty()
    } else {
        wanted(seq![root, utf8("chosen")], initrd_size)
    }
    &&& chosen_nodes(after) == if !seen && chosen_nodes(before).len() == 0 {
        seq![Entry::Node(seq![root, utf8("chosen")])]
    } else {
        chosen_nodes(before)
    }
}

/// The step of [`lemma_rewritten`] at a token that stays: `x` is what it reads as.
proof fn lemma_became_same(
    x: Seq<Entry>,
    before: Seq<Entry>,
    after: Seq<Entry>,
    root: Seq<u8>,
    initrd_size: int,
    seen: bool,
)
    requires
        became(before, after, root, initrd_size, seen),
        set_props(x).len() == 0,
        seen || chosen_nodes(x).len() == 0,
    ensures
        became(x + before, x + after, root, initrd_size, seen),
{
    reveal(became);
    lemma_parts(x, before);
    lemma_parts(x, after);
    assert(set_props(x) + set_props(after) =~= set_props(after));
    if !seen {
        assert(chosen_nodes(x) + chosen_nodes(after) =~= chosen_nodes(after));
        assert(chosen_nodes(x) + chosen_nodes(before) =~= chosen_nodes(before));
    }
}

/// The same at a property that is dropped.
proof fn lemma_became_dropped(
    e: Entry,
    before: Seq<Entry>,
    after: Seq<Entry>,
    root: Seq<u8>,
    initrd_size: int,
    seen: bool,
)
    requires
        became(before, after, root, initrd_size, seen),
        is_set(e),
    ensures
        became(seq![e] + before, after, root, initrd_size, seen),
{
    reveal(became);
    lemma_one(e);
    lemma_parts(seq![e], before);
    assert(kept(seq![e]) + kept(before) =~= kept(before));
    assert(chosen_nodes(seq![e]) + chosen_nodes(before) =~= chosen_nodes(before));
}

/// The same where the properties are put into a node that is there.
proof fn lemma_became_patched(
    before: Seq<Entry>,
    after: Seq<Entry>,
    root: Seq<u8>,
    initrd_size: int,
)
    requires
        became(before, after, root, initrd_size, true),
    ensures
        ({
            let own = seq![root, utf8("chosen")];
            let node = seq![Entry::Node(own)];
            became(
                node + before,
                node + (wanted(own, initrd_size) + after),
                root,
                initrd_size,
                false,
            )
        }),
{
    reveal(became);
    let own = seq![root, utf8("chosen")];
    let node = seq![Entry::Node(own)];
    let w = wanted(own, initrd_size);
    lemma_one(Entry::Node(own));
    lemma_wanted(own, initrd_size);
    lemma_parts(node, before);
    lemma_parts(w, after);
    lemma_parts(node, w + after);
    assert(set_props(node) + (w + set_props(after)) =~= w);
    assert(kept(w) + kept(after) =~= kept(after));
    assert(chosen_nodes(w) + chosen_nodes(after) =~= chosen_nodes(after));
}

/// The same where a node is added.
proof fn lemma_became_added(
    before: Seq<Entry>,
    after: Seq<Entry>,
    root: Seq<u8>,
    initrd_size: int,
)
    requires
        became(before, after, root, initrd_size, true),
        chosen_nodes(before).len() == 0,
    ensures
        ({
            let own = seq![root, utf8("chosen")];
            became(
                before,
                seq![Entry::Node(own)] + wanted(own, initrd_size) + after,
                root,
                initrd_size,
                false,
            )
        }),
{
    reveal(became);
    let own = seq![root, utf8("chosen")];
    let node = seq![Entry::Node(own)];
    let w = wanted(own, initrd_size);
    lemma_one(Entry::Node(own));
    lemma_wanted(own, initrd_size);
    lemma_parts(node, w);
    lemma_parts(node + w, after);
    assert(set_props(node + w) =~= w);
    assert(set_props(node + w + after) =~= w);
    assert(kept(node + w) =~= Seq::empty());
    assert(kept(node + w + after) =~= kept(after));
    assert(chosen_nodes(node + w + after) =~= node);
}

/// Behind the root there is nothing.
proof fn lemma_behind_root(t: Seq<u8>, names: Seq<u8>, path: Seq<Seq<u8>>)
    requires
        well_formed(t, names, 0, true),
    ensures
        entries(t, names, path).len() == 0,
    decreases t.len(),
{
    lemma_token_len(t, names);
    if let Some((k, n)) = token(t, names) {
        if !(k is End) {
            lemma_behind_root(t.skip(n), names, path);
        }
    }
}

/// The step of [`lemma_rewritten`] at a token that is copied.
proof fn lemma_copied(
    t: Seq<u8>,
    names: Seq<u8>,
    k: Token,
    n: int,
    depth: int,
    begun: bool,
    path: Seq<Seq<u8>>,
    r: Seq<u8>,
    root: Seq<u8>,
    initrd_size: int,
    seen: bool,
)
    requires
        token(t, names) == Some((k, n)),
        !(k is End),
        allowed(k, depth, begun),
        well_formed(r, names + new_strings(), depth_after(k, depth), begun || k is Begin),
        became(
            entries(t.skip(n), names, path_after(k, path)),
            entries(r, names + new_strings(), path_after(k, path)),
            root,
            initrd_size,
            seen,
        ),
        k matches Token::Prop(name, _) ==> !(is_chosen_path(path) && is_new_name(name)),
        k matches Token::Begin(name) ==> seen || !is_chosen_path(path.push(name)),
    ensures
        well_formed(t.take(n) + r, names + new_strings(), depth, begun),
        became(
            entries(t, names, path),
            entries(t.take(n) + r, names + new_strings(), path),
            root,
            initrd_size,
            seen,
        ),
{
    let all = names + new_strings();
    let x = entry_of(k, path);
    lemma_token_len(t, names);
    lemma_none();
    match k {
        Token::Begin(name) => lemma_one(Entry::Node(path.push(name))),
        Token::Prop(name, value) => lemma_one(Entry::Prop(path, name, value)),
        _ => {},
    }
    lemma_token_copy(t, names, r, new_strings());
    lemma_step(t.take(n), r, all, k, path, depth, begun);
    lemma_became_same(
        x,
        entries(t.skip(n), names, path_after(k, path)),
        entries(r, all, path_after(k, path)),
        root,
        initrd_size,
        seen,
    );
}

/// The same at the start of the first `chosen` node.
proof fn lemma_patched_here(
    t: Seq<u8>,
    names: Seq<u8>,
    n: int,
    path: Seq<Seq<u8>>,
    r: Seq<u8>,
    initrd_size: int,
)
    requires
        names.len() + 52 < 0x1_0000_0000,
        path.len() == 1,
        token(t, names) == Some((Token::Begin(utf8("chosen")), n)),
        well_formed(r, names + new_strings(), 2, true),
        became(
            entries(t.skip(n), names, path.push(utf8("chosen"))),
            entries(r, names + new_strings(), path.push(utf8("chosen"))),
            path[0],
            initrd_size,
            true,
        ),
    ensures
        ({
            let all = names + new_strings();
            let u = t.take(n) + (new_props(names.len() as int, initrd_size) + r);
            &&& well_formed(u, all, 1, true)
            &&& became(entries(t, names, path), entries(u, all, path), path[0], initrd_size, false)
        }),
{
    let all = names + new_strings();
    let props = new_props(names.len() as int, initrd_size);
    let own = path.push(utf8("chosen"));
    let k = Token::Begin(utf8("chosen"));
    lemma_token_len(t, names);
    lemma_token_copy(t, names, props + r, new_strings());
    lemma_step(t.take(n), props + r, all, k, path, 1, true);
    lemma_props(names, initrd_size, r, own, 2, true);
    assert(own =~= seq![path[0], utf8("chosen")]);
    lemma_became_patched(
        entries(t.skip(n), names, own),
        entries(r, all, own),
        path[0],
        initrd_size,
    );
}

/// The same at the root's end, where there was no `chosen` node.
proof fn lemma_added_here(
    t: Seq<u8>,
    names: Seq<u8>,
    n: int,
    path: Seq<Seq<u8>>,
    r: Seq<u8>,
    root: Seq<u8>,
    initrd_size: int,
)
    requires
        names.len() + 52 < 0x1_0000_0000,
        path.len() == 1,
        token(t, names) == Some((Token::EndNode, n)),
        well_formed(t.skip(n), names, 0, true),
        well_formed(r, names + new_strings(), 0, true),
        became(
            entries(t.skip(n), names, path.drop_last()),
            entries(r, names + new_strings(), path.drop_last()),
            root,
            initrd_size,
            true,
        ),
    ensures
        ({
            let all = names + new_strings();
            let u = chosen_node(new_props(names.len() as int, initrd_size)) + (t.take(n) + r);
            &&& well_formed(u, all, 1, true)
            &&& became(entries(t, names, path), entries(u, all, path), path[0], initrd_size, false)
        }),
{
    let all = names + new_strings();
    let own = path.push(utf8("chosen"));
    let up = path.drop_last();
    let e = entries(t.skip(n), names, up);
    let f = entries(r, all, up);
    lemma_token_len(t, names);
    lemma_none();
    lemma_behind_root(t.skip(n), names, up);
    lemma_token_copy(t, names, r, new_strings());
    lemma_step(t.take(n), r, all, Token::EndNode, path, 1, true);
    lemma_node(names, initrd_size, t.take(n) + r, path);
    assert(e =~= Seq::empty());
    assert(Seq::<Entry>::empty() + e =~= e);
    assert(Seq::<Entry>::empty() + f =~= f);
    assert(own =~= seq![path[0], utf8("chosen")]);
    assert(became(e, f, path[0], initrd_size, true)) by {
        reveal(became);
    }
    lemma_became_added(e, f, path[0], initrd_size);
}

/// What is left of a rewritten structure block is well formed and reads as it should.
/// The result is the root's name.
proof fn lemma_rewritten(
    t: Seq<u8>,
    names: Seq<u8>,
    depth: int,
    begun: bool,
    path: Seq<Seq<u8>>,
    inside: bool,
    seen: bool,
    initrd_size: int,
) -> (root: Seq<u8>)
    requires
        names.len() + 52 < 0x1_0000_0000,
        well_formed(t, names, depth, begun),
        depth == path.len(),
        depth > 0 ==> begun,
        depth >= 2 ==> inside == (path[1] == utf8("chosen")),
        begun && depth == 0 ==> seen,
    ensures
        ({
            let all = names + new_strings();
            let props = new_props(names.len() as int, initrd_size);
            let r = rewritten(t, names, depth, inside, seen, props);
            &&& well_formed(r, all, depth, begun)
            &&& became(
                entries(t, names, path),
                entries(r, all, path),
                root,
                initrd_size,
                seen,
            )
            &&& depth > 0 ==> root == path[0]
        }),
    decreases t.len(),
{
    let all = names + new_strings();
    let props = new_props(names.len() as int, initrd_size);
    let r = rewritten(t, names, depth, inside, seen, props);
    lemma_token_len(t, names);
    let (k, n) = token(t, names)->Some_0;
    let text = t.take(n);
    if k is End {
        reveal(became);
        lemma_none();
        assert(r =~= text + Seq::empty());
        lemma_token_copy(t, names, Seq::empty(), new_strings());
        assert(set_props(Seq::empty()) =~= Seq::empty());
        Seq::empty()
    } else {
        let seen2 = seen_after(k, depth, seen);
        let inside2 = inside_after(k, depth, inside);
        let path2 = path_after(k, path);
        let depth2 = depth_after(k, depth);
        let r2 = rewritten(t.skip(n), names, depth2, inside2, seen2, props);
        let root = lemma_rewritten(
            t.skip(n),
            names,
            depth2,
            begun || k is Begin,
            path2,
            inside2,
            seen2,
            initrd_size,
        );
        if depth == 1 && k == Token::Begin(utf8("chosen")) && !seen {
            assert(r =~= text + (props + r2));
            lemma_patched_here(t, names, n, path, r2, initrd_size);
            root
        } else if depth == 1 && k is EndNode && !seen {
            assert(r =~= chosen_node(props) + (text + r2));
            lemma_added_here(t, names, n, path, r2, root, initrd_size);
            path[0]
        } else if k matches Token::Prop(name, _) && depth == 2 && inside && is_new_name(name) {
            assert(r =~= r2);
            lemma_became_dropped(
                entry_of(k, path)[0],
                entries(t.skip(n), names, path2),
                entries(r2, all, path2),
                root,
                initrd_size,
                seen,
            );
            root
        } else {
            assert(r =~= text + r2);
            let same = if depth > 0 {
                path[0]
            } else {
                root
            };
            assert(became(
                entries(t.skip(n), names, path2),
                entries(r2, all, path2),
                same,
                initrd_size,
                seen,
            )) by {
                reveal(became);
            }
            lemma_copied(t, names, k, n, depth, begun, path, r2, same, initrd_size, seen);
            same
        }
    }
}

/// The header of a patched device tree, and the bytes in front of its structure block.
proof fn lemma_new_header(dtb: Seq<u8>, initrd_size: int)
    requires
        valid(dtb),
        room(dtb),
    ensures
        ({
            let d = patched(dtb, initrd_size);
            let block = new_structure(dtb, initrd_size);
            let names = strings(dtb) + new_strings();
            &&& d.len() == dtb.len()
            &&& be32(d, 0) == FDT_MAGIC
            &&& be32(d, 8) == be32(dtb, 8)
            &&& be32(d, 36) == block.len()
            &&& be32(d, 12) == be32(d, 8) + block.len()
            &&& be32(d, 32) == names.len()
            &&& be32(d, 4) == be32(d, 12) + names.len()
            &&& be32(d, 4) <= d.len()
            &&& structure(d) == block
            &&& strings(d) == names
            &&& forall|i: int|
                0 <= i < be32(dtb, 8) && !(4 <= i < 8) && !(12 <= i < 16) && !(32 <= i < 40)
                    ==> #[trigger] d[i] == dtb[i]
        }),
{
    broadcast use lemma_be_bytes_len;

    let d = patched(dtb, initrd_size);
    let block = new_structure(dtb, initrd_size);
    let names = strings(dtb) + new_strings();
    let off = be32(dtb, 8);
    let at = off + block.len();
    lemma_lengths();
    lemma_be32_range(dtb, 8);
    lemma_be32_range(dtb, 12);
    lemma_be32_range(dtb, 32);
    lemma_be32_range(dtb, 36);
    lemma_rewritten_len(
        structure(dtb),
        strings(dtb),
        0,
        false,
        false,
        new_props(be32(dtb, 32), initrd_size),
    );
    assert(d.subrange(4, 8) =~= be_bytes(at + names.len()));
    assert(d.subrange(12, 16) =~= be_bytes(at));
    assert(d.subrange(32, 36) =~= be_bytes(names.len() as int));
    assert(d.subrange(36, 40) =~= be_bytes(block.len() as int));
    lemma_be_bytes(d, 4, at + names.len());
    lemma_be_bytes(d, 12, at);
    lemma_be_bytes(d, 32, names.len() as int);
    lemma_be_bytes(d, 36, block.len() as int);
    lemma_be32_same(d, dtb, 0);
    lemma_be32_same(d, dtb, 8);
    assert(d.subrange(off, at) =~= block);
    assert(d.subrange(at, at + names.len()) =~= names);
}

/// A valid device tree with room to grow stays one. Its `chosen` node has the three
/// properties, once; where there was one such node at most, there is exactly one, in
/// the root. Every other node and property is there as before, in the same order, and
/// what lies between the header and the structure block is untouched. The result is
/// the name of the root.
pub proof fn lemma_chosen_read_back(dtb: Seq<u8>, initrd_size: int) -> (root: Seq<u8>)
    requires
        valid(dtb),
        room(dtb),
    ensures
        ({
            let d = patched(dtb, initrd_size);
            let own = seq![root, utf8("chosen")];
            &&& valid(d)
            &&& d.len() == dtb.len()
            &&& set_props(listing(d)) == wanted(own, initrd_size)
            &&& chosen_nodes(listing(d)) == if chosen_nodes(listing(dtb)).len() == 0 {
                seq![Entry::Node(own)]
            } else {
                chosen_nodes(listing(dtb))
            }
            &&& kept(listing(d)) == kept(listing(dtb))
            &&& be32(d, 4) == be32(d, 12) + be32(d, 32)
            &&& be32(d, 12) == be32(d, 8) + be32(d, 36)
            &&& forall|i: int|
                0 <= i < be32(dtb, 8) && !(4 <= i < 8) && !(12 <= i < 16) && !(32 <= i < 40)
                    ==> #[trigger] d[i] == dtb[i]
        }),
        chosen_nodes(listing(dtb)).len() <= 1 ==> chosen_nodes(
            listing(patched(dtb, initrd_size)),
        ).len() == 1,
{
    lemma_be32_range(dtb, 8);
    lemma_be32_range(dtb, 12);
    lemma_be32_range(dtb, 32);
    lemma_be32_range(dtb, 36);
    assert(strings(dtb).len() == be32(dtb, 32));
    lemma_new_header(dtb, initrd_size);
    let root = lemma_rewritten(
        structure(dtb),
        strings(dtb),
        0,
        false,
        Seq::empty(),
        false,
        false,
        initrd_size,
    );
    reveal(became);
    root
}

/// No node and no property is lost, but for earlier values of the three properties.
pub proof fn lemma_nothing_is_lost(dtb: Seq<u8>, initrd_size: int, e: Entry)
    requires
        valid(dtb),
        room(dtb),
        listing(dtb).contains(e),
        !is_set(e),
    ensures
        listing(patched(dtb, initrd_size)).contains(e),
{
    lemma_chosen_read_back(dtb, initrd_size);
    let before = listing(dtb);
    let after = listing(patched(dtb, initrd_size));
    reveal(kept);
    reveal(chosen_nodes);
    let i = before.index_of(e);
    assert(before[i] == e);
    if is_chosen(e) {
        let p = |e: Entry| is_chosen(e);
        before.lemma_filter_contains(p, i);
        assert(after.filter(p).contains(e));
        after.lemma_filter_contains_rev(p, e);
    } else {
        let p = |e: Entry| is_kept(e);
        before.lemma_filter_contains(p, i);
        assert(after.filter(p).contains(e));
        after.lemma_filter_contains_rev(p, e);
    }
}

} // verus!
