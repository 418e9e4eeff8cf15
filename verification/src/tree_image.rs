//! What a device tree looks like in memory, and what becomes of one.
//!
//! A device tree is given here as what its writer put down: the nodes and properties in
//! order, and from these the bytes. Reading it back gives what was put down, and the
//! tree that Linux gets has all of it, and its `chosen` node.
use vstd::prelude::*;
use crate::text::utf8;
use crate::device_tree::{Entry, Token, be32, be_bytes, c_string, chosen_nodes, entries, entry_of, is_chosen, is_kept, is_set, kept, lemma_be_bytes, lemma_be_bytes_len, lemma_chosen_read_back, lemma_nothing_is_lost, lemma_step, lemma_token_prop, lemma_zero_at, lemma_zero_at_is, listing, property, room, set_props, set_up, strings, structure, token, valid, wanted, well_formed, zero_at};

verus! {

/// Something that the writer of a device tree puts down.
pub enum Item {
    /// A node of this name starts.
    Begin(Seq<u8>),
    /// A property: where its name lies in the strings block, and its value.
    Prop(int, Seq<u8>),
    /// The node ends.
    End,
    /// A filler.
    Nop,
}

/// A 32-bit number, the high byte first.
pub open spec fn be4(n: int) -> Seq<u8> {
    seq![
        (n / 16777216 % 256) as u8,
        (n / 65536 % 256) as u8,
        (n / 256 % 256) as u8,
        (n % 256) as u8,
    ]
}

/// The 32-bit number at a byte, the high byte first.
pub open spec fn word(d: Seq<u8>, at: int) -> int {
    16777216 * d[at] + 65536 * d[at + 1] + 256 * d[at + 2] + d[at + 3]
}

pub open spec fn zeros(n: int) -> Seq<u8> {
    Seq::new(n as nat, |i: int| 0u8)
}

/// An item in memory. Names end with a zero; all is filled up to whole words.
pub open spec fn item_bytes(item: Item) -> Seq<u8> {
    match item {
        Item::Begin(name) => be4(1) + name + zeros(4 - name.len() as int % 4),
        Item::Prop(off, value) => be4(3) + be4(value.len() as int) + be4(off) + value + zeros(
            (4 - value.len() as int % 4) % 4,
        ),
        Item::End => be4(2),
        Item::Nop => be4(4),
    }
}

/// A structure block: the items, and the mark at the end.
pub open spec fn block_bytes(items: Seq<Item>) -> Seq<u8>
    decreases items.len(),
{
    if items.len() == 0 {
        be4(9)
    } else {
        item_bytes(items[0]) + block_bytes(items.drop_first())
    }
}

/// With `depth` nodes open, the items close them all, the outermost one last.
pub open spec fn nested(items: Seq<Item>, depth: int) -> bool
    decreases items.len(),
{
    if items.len() == 0 {
        depth == 0
    } else {
        depth > 0 && match items[0] {
            Item::Begin(_) => nested(items.drop_first(), depth + 1),
            Item::End => nested(items.drop_first(), depth - 1),
            _ => nested(items.drop_first(), depth),
        }
    }
}

/// The item can be put down: a name has no zero in it, and that of a property ends in
/// the strings block.
pub open spec fn sound_item(item: Item, names: Seq<u8>) -> bool {
    match item {
        Item::Begin(name) => forall|i: int| 0 <= i < name.len() ==> #[trigger] name[i] != 0,
        Item::Prop(off, value) => {
            &&& 0 <= off < names.len()
            &&& exists|z: int| off <= z < names.len() && #[trigger] names[z] == 0
            &&& value.len() < 0x1_0000_0000
        },
        _ => true,
    }
}

/// The string that starts at a place of the strings block.
pub open spec fn name_at(names: Seq<u8>, off: int) -> Seq<u8>
    decreases names.len() - off,
{
    if off < 0 || off >= names.len() || names[off] == 0 {
        Seq::empty()
    } else {
        seq![names[off]] + name_at(names, off + 1)
    }
}

/// The nodes and properties that were put down, each with its place in the tree.
pub open spec fn put_down(items: Seq<Item>, names: Seq<u8>, path: Seq<Seq<u8>>) -> Seq<Entry>
    decreases items.len(),
{
    if items.len() == 0 {
        Seq::empty()
    } else {
        let rest = items.drop_first();
        match items[0] {
            Item::Begin(name) => seq![Entry::Node(path.push(name))] + put_down(
                rest,
                names,
                path.push(name),
            ),
            Item::Prop(off, value) => seq![Entry::Prop(path, name_at(names, off), value)]
                + put_down(rest, names, path),
            Item::End => put_down(rest, names, path.drop_last()),
            Item::Nop => put_down(rest, names, path),
        }
    }
}

/// The memory holds a device tree with these items and this strings block: a header of
/// forty bytes, the magic number at 0, the places of the blocks at 8 and 12 and their
/// sizes at 36 and 32.
pub open spec fn holds_tree(d: Seq<u8>, items: Seq<Item>, names: Seq<u8>) -> bool {
    &&& 40 <= d.len()
    &&& word(d, 0) == 0xD00D_FEED
    &&& 40 <= word(d, 8)
    &&& word(d, 8) + word(d, 36) <= d.len()
    &&& word(d, 12) + word(d, 32) <= d.len()
    &&& d.subrange(word(d, 8), word(d, 8) + word(d, 36)) == block_bytes(items)
    &&& d.subrange(word(d, 12), word(d, 12) + word(d, 32)) == names
    &&& items.len() > 0
    &&& items[0] is Begin
    &&& nested(items.drop_first(), 1)
    &&& forall|i: int| 0 <= i < items.len() ==> sound_item(#[trigger] items[i], names)
}

/// Behind the two blocks, taken together, there are 172 bytes, and with them they end
/// below 2^32.
pub open spec fn can_grow(d: Seq<u8>) -> bool {
    word(d, 8) + word(d, 36) + word(d, 32) + 172 <= d.len() && word(d, 8) + word(d, 36) + word(
        d,
        32,
    ) + 172 < 0x1_0000_0000
}

/// The property of the root's child `chosen`.
pub open spec fn chosen_prop(root: Seq<u8>, name: &str, value: Seq<u8>) -> Entry {
    Entry::Prop(seq![root, utf8("chosen")], utf8(name), value)
}

/// An entry that is set anew: one of the three properties of the root's child `chosen`.
pub open spec fn set_anew(e: Entry) -> bool {
    e matches Entry::Prop(path, name, _) && path.len() == 2 && path[1] == utf8("chosen") && (name
        == utf8("linux,initrd-start") || name == utf8("linux,initrd-end") || name == utf8(
        "bootargs",
    ))
}

proof fn lemma_word(d: Seq<u8>, at: int)
    ensures
        be32(d, at) == word(d, at),
        0 <= word(d, at) < 0x1_0000_0000,
{
    reveal(be32);
}

proof fn lemma_be4(n: int)
    ensures
        be4(n) == be_bytes(n),
        be4(n).len() == 4,
{
    reveal(be_bytes);
}

proof fn lemma_name_at(names: Seq<u8>, off: int)
    requires
        0 <= off <= names.len(),
    ensures
        name_at(names, off) == c_string(names.skip(off)),
        name_at(names, off).len() == zero_at(names.skip(off)),
    decreases names.len() - off,
{
    let s = names.skip(off);
    lemma_zero_at(s);
    if off < names.len() && names[off] != 0 {
        lemma_name_at(names, off + 1);
        assert(s.skip(1) =~= names.skip(off + 1));
        lemma_zero_at(s.skip(1));
        assert(name_at(names, off) =~= c_string(s));
    } else {
        assert(name_at(names, off) =~= c_string(s));
    }
}

proof fn lemma_terminated(names: Seq<u8>, off: int, z: int)
    requires
        0 <= off <= z < names.len(),
        names[z] == 0,
    ensures
        off + zero_at(names.skip(off)) < names.len(),
{
    let s = names.skip(off);
    lemma_zero_at(s);
    if zero_at(s) == s.len() {
        assert(s[z - off] == 0);
    }
}

/// The token that an item is read as.
spec fn token_of(item: Item, names: Seq<u8>) -> Token {
    match item {
        Item::Begin(name) => Token::Begin(name),
        Item::Prop(off, value) => Token::Prop(name_at(names, off), value),
        Item::End => Token::EndNode,
        Item::Nop => Token::Nop,
    }
}

proof fn lemma_begin_is_read(name: Seq<u8>, rest: Seq<u8>, names: Seq<u8>)
    requires
        forall|i: int| 0 <= i < name.len() ==> #[trigger] name[i] != 0,
    ensures
        token(item_bytes(Item::Begin(name)) + rest, names) == Some(
            (Token::Begin(name), item_bytes(Item::Begin(name)).len() as int),
        ),
{
    reveal(token);
    let x = item_bytes(Item::Begin(name));
    let u = x + rest;
    let n = name.len() as int;
    lemma_be4(1);
    assert(u.subrange(0, 4) =~= be_bytes(1));
    lemma_be_bytes(u, 0, 1);
    let t = u.skip(4);
    assert(t[n] == 0);
    assert forall|i: int| 0 <= i < n implies #[trigger] t[i] != 0 by {
        assert(t[i] == name[i]);
    }
    lemma_zero_at_is(t, n);
    assert(u.subrange(4, 4 + n) =~= name);
}

proof fn lemma_mark_is_read(v: int, k: Token, rest: Seq<u8>, names: Seq<u8>)
    requires
        (v == 2 && k is EndNode) || (v == 4 && k is Nop) || (v == 9 && k is End),
    ensures
        token(be4(v) + rest, names) == Some((k, 4int)),
{
    reveal(token);
    lemma_be4(v);
    let u = be4(v) + rest;
    assert(u.subrange(0, 4) =~= be_bytes(v));
    lemma_be_bytes(u, 0, v);
}

proof fn lemma_prop_is_read(off: int, value: Seq<u8>, rest: Seq<u8>, names: Seq<u8>)
    requires
        sound_item(Item::Prop(off, value), names),
        names.len() < 0x1_0000_0000,
    ensures
        token(item_bytes(Item::Prop(off, value)) + rest, names) == Some(
            (
                Token::Prop(name_at(names, off), value),
                item_bytes(Item::Prop(off, value)).len() as int,
            ),
        ),
{
    let z = choose|z: int| off <= z < names.len() && #[trigger] names[z] == 0;
    lemma_terminated(names, off, z);
    lemma_name_at(names, off);
    lemma_be4(3);
    lemma_be4(value.len() as int);
    lemma_be4(off);
    let pad = zeros((4 - value.len() as int % 4) % 4);
    let x = property(off, value) + pad;
    assert(item_bytes(Item::Prop(off, value)) == x);
    lemma_token_prop(off, value, pad, rest, names, name_at(names, off));
}

proof fn lemma_item_is_read(item: Item, rest: Seq<u8>, names: Seq<u8>)
    requires
        sound_item(item, names),
        names.len() < 0x1_0000_0000,
    ensures
        token(item_bytes(item) + rest, names) == Some(
            (token_of(item, names), item_bytes(item).len() as int),
        ),
{
    match item {
        Item::Begin(name) => lemma_begin_is_read(name, rest, names),
        Item::Prop(off, value) => lemma_prop_is_read(off, value, rest, names),
        Item::End => {
            lemma_be4(2);
            lemma_mark_is_read(2, Token::EndNode, rest, names);
        },
        Item::Nop => {
            lemma_be4(4);
            lemma_mark_is_read(4, Token::Nop, rest, names);
        },
    }
}

/// What is left of a structure block is read as it was put down.
proof fn lemma_rest_is_read(items: Seq<Item>, names: Seq<u8>, path: Seq<Seq<u8>>, depth: int)
    requires
        nested(items, depth),
        names.len() < 0x1_0000_0000,
        forall|i: int| 0 <= i < items.len() ==> sound_item(#[trigger] items[i], names),
    ensures
        well_formed(block_bytes(items), names, depth, true),
        entries(block_bytes(items), names, path) == put_down(items, names, path),
    decreases items.len(),
{
    if items.len() == 0 {
        lemma_be4(9);
        assert(be4(9) + Seq::<u8>::empty() =~= be4(9));
        lemma_mark_is_read(9, Token::End, Seq::empty(), names);
    } else {
        let rest = items.drop_first();
        let k = token_of(items[0], names);
        let x = item_bytes(items[0]);
        assert forall|i: int| 0 <= i < rest.len() implies sound_item(#[trigger] rest[i], names) by {
            assert(rest[i] == items[i + 1]);
        }
        lemma_item_is_read(items[0], block_bytes(rest), names);
        lemma_step(x, block_bytes(rest), names, k, path, depth, true);
        match items[0] {
            Item::Begin(name) => lemma_rest_is_read(rest, names, path.push(name), depth + 1),
            Item::End => {
                lemma_rest_is_read(rest, names, path.drop_last(), depth - 1);
                assert(entry_of(k, path) + put_down(rest, names, path.drop_last()) =~= put_down(
                    rest,
                    names,
                    path.drop_last(),
                ));
            },
            Item::Prop(_, _) => lemma_rest_is_read(rest, names, path, depth),
            Item::Nop => {
                lemma_rest_is_read(rest, names, path, depth);
                assert(entry_of(k, path) + put_down(rest, names, path) =~= put_down(
                    rest,
                    names,
                    path,
                ));
            },
        }
    }
}

/// A device tree is read as it was put down.
pub proof fn lemma_tree_is_read(d: Seq<u8>, items: Seq<Item>, names: Seq<u8>)
    requires
        holds_tree(d, items, names),
    ensures
        valid(d),
        listing(d) == put_down(items, names, Seq::empty()),
        room(d) == can_grow(d),
{
    lemma_word(d, 0);
    lemma_word(d, 8);
    lemma_word(d, 12);
    lemma_word(d, 32);
    lemma_word(d, 36);
    let none = Seq::<Seq<u8>>::empty();
    let rest = items.drop_first();
    let k = token_of(items[0], names);
    let name = items[0]->Begin_0;
    assert forall|i: int| 0 <= i < rest.len() implies sound_item(#[trigger] rest[i], names) by {
        assert(rest[i] == items[i + 1]);
    }
    assert(names.len() == word(d, 32));
    lemma_item_is_read(items[0], block_bytes(rest), names);
    lemma_step(item_bytes(items[0]), block_bytes(rest), names, k, none, 0, false);
    lemma_rest_is_read(rest, names, none.push(name), 1);
}

/// Whatever device tree the memory holds, if it has 172 bytes to grow, it is one
/// afterwards whose `chosen` node, a child of the root, says where the initramfs lies
/// and what the command line is; nothing that was put down is lost, and nothing else
/// is new. The result is the name of the root.
pub proof fn lemma_tree_is_set_up(
    d: Seq<u8>,
    items: Seq<Item>,
    names: Seq<u8>,
    initrd_size: int,
) -> (root: Seq<u8>)
    requires
        holds_tree(d, items, names),
        can_grow(d),
    ensures
        ({
            let now = set_up(d, initrd_size);
            let had = put_down(items, names, Seq::empty());
            let start = chosen_prop(root, "linux,initrd-start", be4(0x0200_0000));
            let end = chosen_prop(root, "linux,initrd-end", be4(0x0200_0000 + initrd_size));
            let args = chosen_prop(
                root,
                "bootargs",
                utf8("console=tty1 console=ttyAMA0,115200 rdinit=/init panic=5").push(0),
            );
            let has = listing(now);
            &&& valid(now)
            &&& now.len() == d.len()
            &&& has.contains(start) && has.contains(end) && has.contains(args)
            &&& forall|e: Entry| #[trigger]
                has.contains(e) && set_anew(e) ==> e == start || e == end || e == args
            &&& forall|e: Entry| #[trigger] had.contains(e) && !set_anew(e) ==> has.contains(e)
            &&& forall|e: Entry| #[trigger]
                has.contains(e) && !set_anew(e) ==> had.contains(e) || e == Entry::Node(
                    seq![root, utf8("chosen")],
                )
            // The header says how large all of it is.
            &&& word(now, 0) == 0xD00D_FEED
            &&& word(now, 4) == word(now, 12) + word(now, 32)
            &&& word(now, 12) == word(now, 8) + word(now, 36)
            &&& word(now, 4) <= now.len()
        }),
{
    lemma_tree_is_read(d, items, names);
    let now = set_up(d, initrd_size);
    let had = listing(d);
    let has = listing(now);
    let root = lemma_chosen_read_back(d, initrd_size);
    let own = seq![root, utf8("chosen")];
    reveal(wanted);
    reveal(set_props);
    reveal(kept);
    reveal(chosen_nodes);
    lemma_be4(0x0200_0000);
    lemma_be4(0x0200_0000 + initrd_size);
    let w = wanted(own, initrd_size);
    let p = |e: Entry| is_set(e);
    assert forall|i: int| 0 <= i < 3 implies has.contains(#[trigger] w[i]) by {
        assert(has.filter(p).contains(w[i]));
        has.lemma_filter_contains_rev(p, w[i]);
    }
    assert(has.contains(w[0]) && has.contains(w[1]) && has.contains(w[2]));
    assert forall|e: Entry| #[trigger] has.contains(e) && set_anew(e) implies e == w[0] || e == w[1]
        || e == w[2] by {
        let i = has.index_of(e);
        assert(has[i] == e);
        has.lemma_filter_contains(p, i);
        assert(w.contains(e));
    }
    assert forall|e: Entry| #[trigger] had.contains(e) && !set_anew(e) implies has.contains(e) by {
        lemma_nothing_is_lost(d, initrd_size, e);
    }
    assert forall|e: Entry| #[trigger] has.contains(e) && !set_anew(e) implies had.contains(e) || e
        == Entry::Node(own) by {
        let i = has.index_of(e);
        assert(has[i] == e);
        if is_chosen(e) {
            let c = |e: Entry| is_chosen(e);
            has.lemma_filter_contains(c, i);
            assert(chosen_nodes(has).contains(e));
            if chosen_nodes(had).len() > 0 {
                had.lemma_filter_contains_rev(c, e);
            }
        } else {
            let c = |e: Entry| is_kept(e);
            has.lemma_filter_contains(c, i);
            assert(kept(has).contains(e));
            had.lemma_filter_contains_rev(c, e);
        }
    }
    lemma_word(now, 0);
    lemma_word(now, 4);
    lemma_word(now, 8);
    lemma_word(now, 12);
    lemma_word(now, 32);
    lemma_word(now, 36);
    root
}

proof fn lemma_mark_is_last(t: Seq<u8>, names: Seq<u8>, depth: int, begun: bool)
    requires
        well_formed(t, names, depth, begun),
    ensures
        t.len() >= 4,
        word(t, t.len() - 4) == 9,
    decreases t.len(),
{
    crate::device_tree::lemma_token_len(t, names);
    let (k, n) = token(t, names)->Some_0;
    if k is End {
        reveal(token);
        lemma_word(t, 0);
    } else {
        let rest = t.skip(n);
        lemma_mark_is_last(
            rest,
            names,
            crate::device_tree::depth_after(k, depth),
            begun || k is Begin,
        );
        assert(rest[rest.len() - 4] == t[t.len() - 4]);
        assert(rest[rest.len() - 3] == t[t.len() - 3]);
        assert(rest[rest.len() - 2] == t[t.len() - 2]);
        assert(rest[rest.len() - 1] == t[t.len() - 1]);
    }
}

/// Memory without the magic number, or whose structure block does not end with its
/// mark, stays as it is.
pub proof fn lemma_no_tree_stays(d: Seq<u8>, initrd_size: int)
    requires
        d.len() < 40 || word(d, 0) != 0xD00D_FEED || word(d, 8) + word(d, 36) > d.len() || word(
            d,
            word(d, 8) + word(d, 36) - 4,
        ) != 9,
    ensures
        set_up(d, initrd_size) == d,
{
    if valid(d) {
        lemma_word(d, 0);
        lemma_word(d, 8);
        lemma_word(d, 36);
        let t = structure(d);
        lemma_mark_is_last(t, strings(d), 0, false);
        let at = word(d, 8) + word(d, 36) - 4;
        assert(d[at] == t[t.len() - 4] && d[at + 1] == t[t.len() - 3] && d[at + 2] == t[t.len() - 2]
            && d[at + 3] == t[t.len() - 1]);
    }
}

/// A device tree without 172 bytes to grow stays as it is.
pub proof fn lemma_full_tree_stays(d: Seq<u8>, items: Seq<Item>, names: Seq<u8>, initrd_size: int)
    requires
        holds_tree(d, items, names),
        !can_grow(d),
    ensures
        set_up(d, initrd_size) == d,
{
    lemma_tree_is_read(d, items, names);
}

/// The rest of the header, and the memory reservations between it and the structure
/// block, stay as they are.
pub proof fn lemma_header_stays(d: Seq<u8>, items: Seq<Item>, names: Seq<u8>, initrd_size: int, i: int)
    requires
        holds_tree(d, items, names),
        0 <= i < 4 || 8 <= i < 12 || 16 <= i < 32 || 40 <= i < word(d, 8),
    ensures
        set_up(d, initrd_size).len() == d.len(),
        set_up(d, initrd_size)[i] == d[i],
{
    lemma_tree_is_read(d, items, names);
    lemma_word(d, 8);
    if room(d) {
        lemma_chosen_read_back(d, initrd_size);
        broadcast use lemma_be_bytes_len;
        assert(be32(d, 8) == word(d, 8));
    }
}

} // verus!
