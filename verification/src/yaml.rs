//! Rendering a document set as YAML text: one block-style document, or a
//! stream of documents each introduced by a separator line.
use crate::normalize::{DocSetNode, DocumentSet};
use crate::value::{entries_of, entries_wf, node_of, node_wf, nodes_of, nodes_wf, num_text_wf, Node, DynValue};
use vstd::prelude::*;

verus! {

broadcast use vstd::std_specs::vec::axiom_vec_index_decreases, vstd::std_specs::vec::axiom_vec_decreases_to_view;

/// One hexadecimal digit.
pub open spec fn hex_digit(d: nat) -> char {
    if d == 0 {
        '0'
    } else if d == 1 {
        '1'
    } else if d == 2 {
        '2'
    } else if d == 3 {
        '3'
    } else if d == 4 {
        '4'
    } else if d == 5 {
        '5'
    } else if d == 6 {
        '6'
    } else if d == 7 {
        '7'
    } else if d == 8 {
        '8'
    } else if d == 9 {
        '9'
    } else if d == 10 {
        'a'
    } else if d == 11 {
        'b'
    } else if d == 12 {
        'c'
    } else if d == 13 {
        'd'
    } else if d == 14 {
        'e'
    } else {
        'f'
    }
}

/// The canonical decimal digits of a natural number, most significant first,
/// without leading zeroes.
pub open spec fn dec_nat(n: nat) -> Seq<char>
    decreases n,
{
    if n < 10 {
        seq![hex_digit(n)]
    } else {
        dec_nat(n / 10) + seq![hex_digit(n % 10)]
    }
}

/// The canonical decimal rendering of an integer: a minus sign on negative
/// numbers, then the digits.
pub open spec fn dec_int(i: int) -> Seq<char> {
    if i < 0 {
        seq!['-'] + dec_nat((-i) as nat)
    } else {
        dec_nat(i as nat)
    }
}

/// How one character reads inside a double-quoted YAML scalar: backslash,
/// quote and control characters are escaped, anything else stands as is.
pub open spec fn esc_char(c: char) -> Seq<char> {
    if c == '\\' {
        seq!['\\', '\\']
    } else if c == '"' {
        seq!['\\', '"']
    } else if c == '\n' {
        seq!['\\', 'n']
    } else if c == '\r' {
        seq!['\\', 'r']
    } else if c == '\t' {
        seq!['\\', 't']
    } else if (c as u32) < 32 {
        seq!['\\', 'x', hex_digit((c as u32 / 16) as nat), hex_digit((c as u32 % 16) as nat)]
    } else {
        seq![c]
    }
}

/// The body of a double-quoted scalar: each character escaped, in order.
pub open spec fn esc(s: Seq<char>) -> Seq<char>
    decreases s.len(),
{
    if s.len() == 0 {
        Seq::empty()
    } else {
        esc(s.drop_last()) + esc_char(s.last())
    }
}

/// A double-quoted YAML scalar.
pub open spec fn quoted(s: Seq<char>) -> Seq<char> {
    seq!['"'] + esc(s) + seq!['"']
}

/// `n` spaces of indentation.
pub open spec fn sp(n: nat) -> Seq<char> {
    Seq::new(n, |i: int| ' ')
}

/// A node that renders on one line: a scalar, an empty list, or an empty
/// mapping.
pub open spec fn is_inline(n: Node) -> bool {
    match n {
        Node::List(items) => items.len() == 0,
        Node::Mapping(entries) => entries.len() == 0,
        _ => true,
    }
}

/// The one-line rendering of an inline node.
pub open spec fn inline_text(n: Node) -> Seq<char> {
    match n {
        Node::Null => seq!['n', 'u', 'l', 'l'],
        Node::Bool(b) => if b {
            seq!['t', 'r', 'u', 'e']
        } else {
            seq!['f', 'a', 'l', 's', 'e']
        },
        Node::Int(i) => dec_int(i),
        Node::Num(s) => s,
        Node::Str(s) => quoted(s),
        Node::List(_) => seq!['[', ']'],
        Node::Mapping(_) => seq!['{', '}'],
    }
}

/// The block rendering of a non-inline node at indentation `ind`: one line
/// per mapping entry or list element, children indented two further columns.
pub open spec fn yaml_block(n: Node, ind: nat) -> Seq<char>
    decreases n, 1nat,
{
    match n {
        Node::Mapping(entries) => yaml_entries(entries, ind),
        Node::List(items) => yaml_items(items, ind),
        _ => Seq::empty(),
    }
}

/// The block lines of mapping entries, in entry order: an inline value sits
/// on the key's line after a colon, a nested value follows on its own lines.
pub open spec fn yaml_entries(entries: Seq<(Seq<char>, Node)>, ind: nat) -> Seq<char>
    decreases entries, 0nat,
{
    if entries.len() == 0 {
        Seq::empty()
    } else {
        let e = entries.last();
        yaml_entries(entries.drop_last(), ind) + sp(ind) + quoted(e.0) + (if is_inline(e.1) {
            seq![':', ' '] + inline_text(e.1) + seq!['\n']
        } else {
            seq![':', '\n'] + yaml_block(e.1, ind + 2)
        })
    }
}

/// The block lines of list elements, in order: an inline element sits on its
/// dash line, a nested element follows the dash on its own lines.
pub open spec fn yaml_items(items: Seq<Node>, ind: nat) -> Seq<char>
    decreases items, 0nat,
{
    if items.len() == 0 {
        Seq::empty()
    } else {
        let it = items.last();
        yaml_items(items.drop_last(), ind) + sp(ind) + (if is_inline(it) {
            seq!['-', ' '] + inline_text(it) + seq!['\n']
        } else {
            seq!['-', '\n'] + yaml_block(it, ind + 2)
        })
    }
}

/// The YAML text of one document: a single line for an inline root, block
/// lines otherwise.
pub open spec fn yaml_doc(n: Node) -> Seq<char> {
    if is_inline(n) {
        inline_text(n) + seq!['\n']
    } else {
        yaml_block(n, 0)
    }
}

/// The stream separator line that introduces each document of a multi-
/// document stream.
pub open spec fn sep() -> Seq<char> {
    seq!['-', '-', '-', '\n']
}

/// The text of a document stream: every document, first one included, is
/// introduced by a separator line, in document order.
pub open spec fn multi_docs(ds: Seq<Node>) -> Seq<char>
    decreases ds,
{
    if ds.len() == 0 {
        Seq::empty()
    } else {
        multi_docs(ds.drop_last()) + sep() + yaml_doc(ds.last())
    }
}

/// What serializing a document set yields: the plain document text for a
/// single-document set, the separated stream for a list set.
pub open spec fn render_set_text(s: DocSetNode) -> Seq<char> {
    match s {
        DocSetNode::Single(d) => yaml_doc(d),
        DocSetNode::List(ds) => multi_docs(ds),
    }
}

/// The value of one hexadecimal digit.
pub open spec fn hex_val(c: char) -> nat {
    if c == '0' {
        0
    } else if c == '1' {
        1
    } else if c == '2' {
        2
    } else if c == '3' {
        3
    } else if c == '4' {
        4
    } else if c == '5' {
        5
    } else if c == '6' {
        6
    } else if c == '7' {
        7
    } else if c == '8' {
        8
    } else if c == '9' {
        9
    } else if c == 'a' {
        10
    } else if c == 'b' {
        11
    } else if c == 'c' {
        12
    } else if c == 'd' {
        13
    } else if c == 'e' {
        14
    } else {
        15
    }
}

/// The character a short escape stands for.
pub open spec fn unesc_char(c: char) -> char {
    if c == 'n' {
        '\n'
    } else if c == 'r' {
        '\r'
    } else if c == 't' {
        '\t'
    } else {
        c
    }
}

/// Reading a double-quoted scalar body back: each escape unit decoded, every
/// other character taken as it stands.
pub open spec fn unesc(t: Seq<char>) -> Seq<char>
    decreases t.len(),
{
    if t.len() == 0 {
        Seq::empty()
    } else if t[0] != '\\' {
        seq![t[0]] + unesc(t.drop_first())
    } else if t.len() >= 4 && t[1] == 'x' {
        seq![((hex_val(t[2]) * 16 + hex_val(t[3])) as u32) as char] + unesc(t.skip(4))
    } else if t.len() >= 2 {
        seq![unesc_char(t[1])] + unesc(t.skip(2))
    } else {
        Seq::empty()
    }
}

/// Escaping reads the same from the front as from the back.
proof fn lemma_esc_cons(s: Seq<char>)
    requires
        s.len() > 0,
    ensures
        esc(s) == esc_char(s[0]) + esc(s.drop_first()),
    decreases s.len(),
{
    if s.len() == 1 {
        assert(s.drop_last() =~= Seq::<char>::empty());
        assert(s.drop_first() =~= Seq::<char>::empty());
        assert(esc(s) =~= esc_char(s[0]) + esc(s.drop_first()));
    } else {
        lemma_esc_cons(s.drop_last());
        assert(s.drop_last().drop_first() =~= s.drop_first().drop_last());
        assert(s.drop_last()[0] == s[0]);
        assert(s.drop_first().last() == s.last());
        assert(esc(s) == (esc_char(s[0]) + esc(s.drop_first().drop_last())) + esc_char(
            s.drop_first().last(),
        ));
        assert(esc(s) =~= esc_char(s[0]) + (esc(s.drop_first().drop_last()) + esc_char(
            s.drop_first().last(),
        )));
    }
}

/// Law: quoting loses nothing. Reading the escaped body of a double-quoted
/// scalar back recovers the original string, character for character.
pub proof fn lemma_escape_round_trip(s: Seq<char>)
    ensures
        unesc(esc(s)) == s,
    decreases s.len(),
{
    if s.len() > 0 {
        lemma_esc_cons(s);
        lemma_escape_round_trip(s.drop_first());
        let c = s[0];
        let u = esc_char(c);
        let rest = esc(s.drop_first());
        let t = u + rest;
        if c == '\\' || c == '"' || c == '\n' || c == '\r' || c == '\t' {
            assert(t.skip(2) =~= rest);
            assert(unesc(t) == seq![c] + unesc(rest));
        } else if (c as u32) < 32 {
            assert(t.skip(4) =~= rest);
            assert(t[2] == hex_digit((c as u32 / 16) as nat));
            assert(t[3] == hex_digit((c as u32 % 16) as nat));
            assert(hex_val(t[2]) == c as u32 / 16);
            assert(hex_val(t[3]) == c as u32 % 16);
            assert((c as u32 / 16) * 16 + (c as u32 % 16) == c as u32) by (nonlinear_arith);
            assert(((hex_val(t[2]) * 16 + hex_val(t[3])) as u32) == c as u32);
            vstd::utf8::char_u32_cast(c, c as u32);
            assert(((hex_val(t[2]) * 16 + hex_val(t[3])) as u32) as char == c);
            assert(unesc(t) == seq![c] + unesc(rest));
        } else {
            assert(t[0] == c);
            assert(t.drop_first() =~= rest);
            assert(unesc(t) == seq![c] + unesc(rest));
        }
        assert(seq![c] + s.drop_first() =~= s);
    }
}

/// A decimal rendering is never empty and always begins with a digit.
proof fn lemma_dec_nat_first(n: nat)
    ensures
        dec_nat(n).len() >= 1,
        48 <= dec_nat(n)[0] as u32 <= 57,
    decreases n,
{
    if n >= 10 {
        lemma_dec_nat_first(n / 10);
    }
}

/// Nonempty mapping lines always begin with the quote of the first key.
proof fn lemma_entries_first_char(entries: Seq<(Seq<char>, Node)>, ind: nat)
    requires
        entries.len() > 0,
    ensures
        yaml_entries(entries, ind).len() >= sp(ind).len() + 1,
        yaml_entries(entries, ind)[sp(ind).len() as int] == '"',
        forall|k: int| 0 <= k < sp(ind).len() ==> yaml_entries(entries, ind)[k] == ' ',
    decreases entries.len(),
{
    let t = yaml_entries(entries, ind);
    let rest = yaml_entries(entries.drop_last(), ind);
    if entries.len() > 1 {
        lemma_entries_first_char(entries.drop_last(), ind);
        assert(t[sp(ind).len() as int] == rest[sp(ind).len() as int]);
        assert(forall|k: int| 0 <= k < sp(ind).len() ==> t[k] == rest[k]);
    } else {
        assert(rest =~= Seq::<char>::empty());
        let e = entries.last();
        let tail = if is_inline(e.1) {
            seq![':', ' '] + inline_text(e.1) + seq!['\n']
        } else {
            seq![':', '\n'] + yaml_block(e.1, ind + 2)
        };
        assert(t =~= rest + (sp(ind) + quoted(e.0) + tail));
        assert((sp(ind) + quoted(e.0) + tail)[sp(ind).len() as int] == quoted(e.0)[0]);
        assert(quoted(e.0)[0] == '"');
    }
}

/// Nonempty list lines always begin with a dash followed by a space or a
/// line break.
proof fn lemma_items_first_chars(items: Seq<Node>, ind: nat)
    requires
        items.len() > 0,
    ensures
        yaml_items(items, ind).len() >= sp(ind).len() + 2,
        yaml_items(items, ind)[sp(ind).len() as int] == '-',
        yaml_items(items, ind)[sp(ind).len() + 1 as int] == ' ' || yaml_items(items, ind)[sp(
            ind,
        ).len() + 1 as int] == '\n',
    decreases items.len(),
{
    let t = yaml_items(items, ind);
    let rest = yaml_items(items.drop_last(), ind);
    if items.len() > 1 {
        lemma_items_first_chars(items.drop_last(), ind);
        assert(t[sp(ind).len() as int] == rest[sp(ind).len() as int]);
        assert(t[sp(ind).len() + 1 as int] == rest[sp(ind).len() + 1 as int]);
    } else {
        assert(rest =~= Seq::<char>::empty());
        let it = items.last();
        if is_inline(it) {
            let line = sp(ind) + (seq!['-', ' '] + inline_text(it) + seq!['\n']);
            assert(t =~= rest + line);
            assert(line[sp(ind).len() as int] == '-');
            assert(line[sp(ind).len() + 1 as int] == ' ');
        } else {
            let line = sp(ind) + (seq!['-', '\n'] + yaml_block(it, ind + 2));
            assert(t =~= rest + line);
            assert(line[sp(ind).len() as int] == '-');
            assert(line[sp(ind).len() + 1 as int] == '\n');
        }
    }
}

/// Law: the text of a single-document set never begins with the stream
/// separator line; the one document stands plain.
pub proof fn lemma_single_no_leading_separator(d: Node)
    requires
        node_wf(d),
    ensures
        !sep().is_prefix_of(render_set_text(DocSetNode::Single(d))),
{
    let t = render_set_text(DocSetNode::Single(d));
    if is_inline(d) {
        match d {
            Node::Int(i) => {
                if i < 0 {
                    lemma_dec_nat_first((-i) as nat);
                    assert(t[1] != '-');
                } else {
                    lemma_dec_nat_first(i as nat);
                    assert(t[0] != '-');
                }
            },
            Node::Num(s) => {
                if sep().is_prefix_of(t) {
                    if s.len() == 1 {
                        assert(t[1] == '\n');
                    } else {
                        assert(t[1] == s[1]);
                    }
                    assert(t[1] == '-');
                    assert(false);
                }
            },
            _ => {
                assert(t[0] != '-');
            },
        }
    } else {
        match d {
            Node::Mapping(entries) => {
                lemma_entries_first_char(entries, 0);
                assert(sp(0).len() == 0);
                assert(t[0] != '-');
            },
            Node::List(items) => {
                lemma_items_first_chars(items, 0);
                assert(sp(0).len() == 0);
                assert(t[1] != '-');
            },
            _ => {},
        }
    }
}

/// Law: in a stream, each document is introduced by exactly one separator
/// line standing immediately before its rendering, in document order.
pub proof fn lemma_multi_docs_step(ds: Seq<Node>, i: int)
    requires
        0 <= i < ds.len(),
    ensures
        multi_docs(ds.take(i + 1)) == multi_docs(ds.take(i)) + sep() + yaml_doc(ds[i]),
{
    assert(ds.take(i + 1).drop_last() =~= ds.take(i));
    assert(ds.take(i + 1).last() == ds[i]);
}

/// Law: the text of a nonempty stream begins with the stream separator.
pub proof fn lemma_multi_begins_with_separator(ds: Seq<Node>)
    requires
        ds.len() > 0,
    ensures
        sep().is_prefix_of(render_set_text(DocSetNode::List(ds))),
    decreases ds.len(),
{
    if ds.len() == 1 {
        assert(multi_docs(ds.drop_last()) =~= Seq::<char>::empty());
        assert(multi_docs(ds) =~= sep() + yaml_doc(ds.last()));
        assert(sep().is_prefix_of(sep() + yaml_doc(ds.last())));
    } else {
        lemma_multi_begins_with_separator(ds.drop_last());
        assert(sep().is_prefix_of(multi_docs(ds.drop_last())));
        assert(sep().is_prefix_of(multi_docs(ds)));
    }
}

/// Whether a stream separator line stands at position `i` of `t`: the four
/// separator characters, at the start of the text or of a line.
pub open spec fn sep_at(t: Seq<char>, i: int) -> bool {
    &&& 0 <= i
    &&& i + 4 <= t.len()
    &&& t[i] == '-'
    &&& t[i + 1] == '-'
    &&& t[i + 2] == '-'
    &&& t[i + 3] == '\n'
    &&& (i == 0 || t[i - 1] == '\n')
}

/// No stream separator line stands anywhere in `t`.
pub open spec fn sep_free(t: Seq<char>) -> bool {
    forall|i: int| !sep_at(t, i)
}

/// Every character of a decimal rendering is a digit.
proof fn lemma_dec_nat_digits(n: nat)
    ensures
        forall|i: int|
            0 <= i < dec_nat(n).len() ==> 48 <= #[trigger] dec_nat(n)[i] as u32 <= 57,
    decreases n,
{
    if n >= 10 {
        lemma_dec_nat_digits(n / 10);
        let a = dec_nat(n / 10);
        assert forall|i: int|
            0 <= i < dec_nat(n).len() implies 48 <= #[trigger] dec_nat(n)[i] as u32 <= 57 by {
            if i < a.len() {
                assert(dec_nat(n)[i] == a[i]);
            } else {
                assert(dec_nat(n)[i] == hex_digit(n % 10));
            }
        }
    }
}

/// An escaped scalar body holds no line break.
proof fn lemma_esc_no_newline(s: Seq<char>)
    ensures
        forall|i: int| 0 <= i < esc(s).len() ==> #[trigger] esc(s)[i] != '\n',
    decreases s.len(),
{
    if s.len() > 0 {
        lemma_esc_no_newline(s.drop_last());
        let a = esc(s.drop_last());
        let b = esc_char(s.last());
        assert(forall|i: int| 0 <= i < b.len() ==> #[trigger] b[i] != '\n');
        assert forall|i: int| 0 <= i < esc(s).len() implies #[trigger] esc(s)[i] != '\n' by {
            if i < a.len() {
                assert(esc(s)[i] == a[i]);
            } else {
                assert(esc(s)[i] == b[i - a.len()]);
            }
        }
    }
}

/// A one-line rendering holds no line break.
proof fn lemma_inline_no_newline(n: Node)
    requires
        is_inline(n),
        node_wf(n),
    ensures
        forall|i: int| 0 <= i < inline_text(n).len() ==> #[trigger] inline_text(n)[i] != '\n',
{
    match n {
        Node::Int(i) => {
            if i < 0 {
                lemma_dec_nat_digits((-i) as nat);
            } else {
                lemma_dec_nat_digits(i as nat);
            }
        },
        Node::Str(s) => {
            lemma_esc_no_newline(s);
        },
        _ => {},
    }
}

/// A single line that does not open with two dashes holds no separator.
proof fn lemma_sep_free_line(u: Seq<char>)
    requires
        u.len() >= 2,
        u.last() == '\n',
        forall|i: int| 0 <= i < u.len() - 1 ==> u[i] != '\n',
        u[0] != '-' || u[1] != '-',
    ensures
        sep_free(u),
{
    assert forall|i: int| !sep_at(u, i) by {
        if sep_at(u, i) {
            assert(u[i + 3] == '\n');
            assert(i + 3 == u.len() - 1);
            if i > 0 {
                assert(u[i - 1] == '\n');
            }
        }
    }
}

/// A separator-free text followed by a separator-free text is separator-free
/// when the first ends on a line break.
proof fn lemma_sep_free_concat(a: Seq<char>, b: Seq<char>)
    requires
        sep_free(a),
        sep_free(b),
        a.len() == 0 || a.last() == '\n',
    ensures
        sep_free(a + b),
{
    let t = a + b;
    assert forall|i: int| !sep_at(t, i) by {
        if sep_at(t, i) {
            if i + 4 <= a.len() {
                assert(sep_at(a, i));
            } else if i >= a.len() {
                assert(sep_at(b, i - a.len()));
            } else {
                let k = a.len() - 1 - i;
                assert(0 <= k < 3);
                assert(t[a.len() - 1] == a.last());
                assert(a.last() == '-');
            }
        }
    }
}

/// A nonempty block ends on a line break.
proof fn lemma_block_newline(n: Node, ind: nat)
    requires
        !is_inline(n),
    ensures
        yaml_block(n, ind).len() >= 1,
        yaml_block(n, ind).last() == '\n',
    decreases n, 1nat,
{
    match n {
        Node::Mapping(entries) => lemma_entries_newline(entries, ind),
        Node::List(items) => lemma_items_newline(items, ind),
        _ => {},
    }
}

/// Nonempty mapping lines end on a line break.
proof fn lemma_entries_newline(entries: Seq<(Seq<char>, Node)>, ind: nat)
    requires
        entries.len() > 0,
    ensures
        yaml_entries(entries, ind).len() >= 1,
        yaml_entries(entries, ind).last() == '\n',
    decreases entries, 0nat,
{
    let e = entries.last();
    if !is_inline(e.1) {
        lemma_block_newline(e.1, ind + 2);
    }
}

/// Nonempty list lines end on a line break.
proof fn lemma_items_newline(items: Seq<Node>, ind: nat)
    requires
        items.len() > 0,
    ensures
        yaml_items(items, ind).len() >= 1,
        yaml_items(items, ind).last() == '\n',
    decreases items, 0nat,
{
    let it = items.last();
    if !is_inline(it) {
        lemma_block_newline(it, ind + 2);
    }
}

/// No separator line stands inside a rendered block.
proof fn lemma_block_sep_free(n: Node, ind: nat)
    requires
        node_wf(n),
    ensures
        sep_free(yaml_block(n, ind)),
    decreases n, 1nat,
{
    match n {
        Node::Mapping(entries) => lemma_entries_sep_free(entries, ind),
        Node::List(items) => lemma_items_sep_free(items, ind),
        _ => {},
    }
}

/// No separator line stands inside rendered mapping lines.
proof fn lemma_entries_sep_free(entries: Seq<(Seq<char>, Node)>, ind: nat)
    requires
        entries_wf(entries),
    ensures
        sep_free(yaml_entries(entries, ind)),
    decreases entries, 0nat,
{
    if entries.len() > 0 {
        let rest = yaml_entries(entries.drop_last(), ind);
        lemma_entries_sep_free(entries.drop_last(), ind);
        let e = entries.last();
        lemma_esc_no_newline(e.0);
        if is_inline(e.1) {
            let u = sp(ind) + quoted(e.0) + (seq![':', ' '] + inline_text(e.1) + seq!['\n']);
            lemma_inline_no_newline(e.1);
            assert(u.last() == '\n');
            assert(forall|i: int| 0 <= i < u.len() - 1 ==> u[i] != '\n');
            assert(u[0] != '-');
            lemma_sep_free_line(u);
            if entries.len() > 1 {
                lemma_entries_newline(entries.drop_last(), ind);
            }
            lemma_sep_free_concat(rest, u);
            assert(yaml_entries(entries, ind) =~= rest + u);
        } else {
            let line = sp(ind) + quoted(e.0) + seq![':', '\n'];
            let block = yaml_block(e.1, ind + 2);
            assert(line.last() == '\n');
            assert(forall|i: int| 0 <= i < line.len() - 1 ==> line[i] != '\n');
            assert(line[0] != '-');
            lemma_sep_free_line(line);
            lemma_block_sep_free(e.1, ind + 2);
            lemma_sep_free_concat(line, block);
            if entries.len() > 1 {
                lemma_entries_newline(entries.drop_last(), ind);
            }
            lemma_sep_free_concat(rest, line + block);
            assert(yaml_entries(entries, ind) =~= rest + (line + block));
        }
    }
}

/// No separator line stands inside rendered list lines.
proof fn lemma_items_sep_free(items: Seq<Node>, ind: nat)
    requires
        nodes_wf(items),
    ensures
        sep_free(yaml_items(items, ind)),
    decreases items, 0nat,
{
    if items.len() > 0 {
        let rest = yaml_items(items.drop_last(), ind);
        lemma_items_sep_free(items.drop_last(), ind);
        let it = items.last();
        if is_inline(it) {
            let u = sp(ind) + (seq!['-', ' '] + inline_text(it) + seq!['\n']);
            lemma_inline_no_newline(it);
            assert(u.last() == '\n');
            assert(forall|i: int| 0 <= i < u.len() - 1 ==> u[i] != '\n');
            if ind == 0 {
                assert(u[1] == ' ');
            } else {
                assert(u[0] == ' ');
            }
            lemma_sep_free_line(u);
            if items.len() > 1 {
                lemma_items_newline(items.drop_last(), ind);
            }
            lemma_sep_free_concat(rest, u);
            assert(yaml_items(items, ind) =~= rest + u);
        } else {
            let line = sp(ind) + seq!['-', '\n'];
            let block = yaml_block(it, ind + 2);
            assert(line.last() == '\n');
            assert(forall|i: int| 0 <= i < line.len() - 1 ==> line[i] != '\n');
            if ind == 0 {
                assert(line[1] == '\n');
            } else {
                assert(line[0] == ' ');
            }
            lemma_sep_free_line(line);
            lemma_block_sep_free(it, ind + 2);
            lemma_sep_free_concat(line, block);
            if items.len() > 1 {
                lemma_items_newline(items.drop_last(), ind);
            }
            lemma_sep_free_concat(rest, line + block);
            assert(yaml_items(items, ind) =~= rest + (line + block));
        }
    }
}

/// No separator line stands inside one rendered document.
proof fn lemma_doc_sep_free(d: Node)
    requires
        node_wf(d),
    ensures
        sep_free(yaml_doc(d)),
{
    if is_inline(d) {
        let u = inline_text(d) + seq!['\n'];
        lemma_inline_no_newline(d);
        assert(u.last() == '\n');
        assert(forall|i: int| 0 <= i < u.len() - 1 ==> u[i] != '\n');
        match d {
            Node::Int(i) => {
                if i < 0 {
                    lemma_dec_nat_first((-i) as nat);
                    assert(u[1] != '-');
                } else {
                    lemma_dec_nat_first(i as nat);
                    assert(u[0] != '-');
                }
            },
            Node::Num(s) => {
                if s.len() == 1 {
                    assert(u[1] == '\n');
                } else {
                    assert(u[1] == s[1]);
                    assert(u[1] != '-');
                }
            },
            _ => {
                assert(u[0] != '-');
            },
        }
        lemma_sep_free_line(u);
    } else {
        lemma_block_sep_free(d, 0);
    }
}

/// A rendered document ends on a line break.
proof fn lemma_doc_newline(d: Node)
    ensures
        yaml_doc(d).len() >= 1,
        yaml_doc(d).last() == '\n',
{
    if !is_inline(d) {
        lemma_block_newline(d, 0);
    }
}

/// A nonempty stream ends on a line break.
proof fn lemma_multi_newline(ds: Seq<Node>)
    requires
        ds.len() > 0,
    ensures
        multi_docs(ds).len() >= 1,
        multi_docs(ds).last() == '\n',
{
    lemma_doc_newline(ds.last());
}

/// Law: a stream of K documents holds exactly K separator lines, one at the
/// very position where each document's rendering begins, in document order,
/// and none anywhere else — a rendered document never contains one.
pub proof fn lemma_stream_separators(ds: Seq<Node>, i: int)
    requires
        nodes_wf(ds),
    ensures
        sep_at(multi_docs(ds), i) <==> exists|k: int|
            0 <= k < ds.len() && i == #[trigger] multi_docs(ds.take(k)).len(),
    decreases ds.len(),
{
    if ds.len() == 0 {
        assert(!sep_at(multi_docs(ds), i));
        assert(!(exists|k: int|
            0 <= k < ds.len() && i == #[trigger] multi_docs(ds.take(k)).len()));
    } else {
        let a = multi_docs(ds.drop_last());
        let d = yaml_doc(ds.last());
        let t = multi_docs(ds);
        assert(t =~= a + sep() + d);
        assert(ds.take(ds.len() - 1) =~= ds.drop_last());
        lemma_doc_newline(ds.last());
        lemma_stream_separators(ds.drop_last(), i);
        if sep_at(t, i) {
            if i + 4 <= a.len() {
                assert(sep_at(a, i));
                let k = choose|k: int|
                    0 <= k < ds.drop_last().len() && i == #[trigger] multi_docs(
                        ds.drop_last().take(k),
                    ).len();
                assert(ds.drop_last().take(k) =~= ds.take(k));
                assert(i == multi_docs(ds.take(k)).len());
            } else if i == a.len() {
                assert(i == multi_docs(ds.take(ds.len() - 1)).len());
            } else if i < a.len() + 4 {
                if i == a.len() + 1 {
                    assert(t[i + 2] == '\n');
                } else if i == a.len() + 2 {
                    assert(t[i + 1] == '\n');
                } else {
                    assert(t[i] == '\n');
                }
                assert(false);
            } else {
                lemma_doc_sep_free(ds.last());
                assert(sep_at(d, i - a.len() - 4));
                assert(false);
            }
        }
        if exists|k: int| 0 <= k < ds.len() && i == #[trigger] multi_docs(ds.take(k)).len() {
            let k = choose|k: int|
                0 <= k < ds.len() && i == #[trigger] multi_docs(ds.take(k)).len();
            if k == ds.len() - 1 {
                assert(i == a.len());
                if a.len() > 0 {
                    lemma_multi_newline(ds.drop_last());
                    assert(t[i - 1] == a.last());
                }
                assert(sep_at(t, i));
            } else {
                assert(ds.take(k) =~= ds.drop_last().take(k));
                assert(sep_at(a, i));
                assert(sep_at(t, i));
            }
        }
    }
}

/// The character for one hexadecimal digit.
fn hex_digit_char(d: u8) -> (c: char)
    requires
        d < 16,
    ensures
        c == hex_digit(d as nat),
{
    if d == 0 {
        '0'
    } else if d == 1 {
        '1'
    } else if d == 2 {
        '2'
    } else if d == 3 {
        '3'
    } else if d == 4 {
        '4'
    } else if d == 5 {
        '5'
    } else if d == 6 {
        '6'
    } else if d == 7 {
        '7'
    } else if d == 8 {
        '8'
    } else if d == 9 {
        '9'
    } else if d == 10 {
        'a'
    } else if d == 11 {
        'b'
    } else if d == 12 {
        'c'
    } else if d == 13 {
        'd'
    } else if d == 14 {
        'e'
    } else {
        'f'
    }
}

/// Append the decimal digits of `n`, most significant first.
fn push_dec_nat(out: &mut String, n: u64)
    ensures
        final(out)@ == old(out)@ + dec_nat(n as nat),
    decreases n,
{
    if n < 10 {
        crate::stdspec::push_char(out, hex_digit_char(n as u8));
        proof {
            assert(old(out)@.push(hex_digit(n as nat)) =~= old(out)@ + dec_nat(n as nat));
        }
    } else {
        push_dec_nat(out, n / 10);
        crate::stdspec::push_char(out, hex_digit_char((n % 10) as u8));
        proof {
            assert((old(out)@ + dec_nat((n / 10) as nat)).push(hex_digit((n % 10) as nat)) =~= old(
                out,
            )@ + dec_nat(n as nat));
        }
    }
}

/// Append the canonical decimal rendering of an integer: a minus sign on a
/// negative value, then its digits.
fn push_int(out: &mut String, i: i64)
    ensures
        final(out)@ == old(out)@ + dec_int(i as int),
{
    if i < 0 {
        crate::stdspec::push_char(out, '-');
        let mag: u64 = if i == i64::MIN {
            9223372036854775808u64
        } else {
            (-i) as u64
        };
        proof {
            assert(mag as nat == (-(i as int)) as nat);
        }
        push_dec_nat(out, mag);
        proof {
            assert(old(out)@.push('-') + dec_nat(mag as nat) =~= old(out)@ + dec_int(i as int));
        }
    } else {
        push_dec_nat(out, i as u64);
    }
}

/// Whether a value renders on one line.
fn inline_check(v: &DynValue) -> (r: bool)
    ensures
        r == is_inline(v@),
{
    match v {
        DynValue::List(items) => {
            proof {
                crate::value::lemma_nodes_of(items@);
            }
            items.len() == 0
        },
        DynValue::Mapping(entries) => {
            proof {
                crate::value::lemma_entries_of(entries@);
            }
            entries.len() == 0
        },
        _ => true,
    }
}

/// Append the escaped body of a double-quoted scalar.
fn push_escaped(out: &mut String, s: &str)
    ensures
        final(out)@ == old(out)@ + esc(s@),
{
    let ghost base = out@;
    let n = s.unicode_len();
    proof {
        assert(s@.take(0) =~= Seq::<char>::empty());
        assert(esc(s@.take(0)) == Seq::<char>::empty());
        assert(base + esc(s@.take(0)) =~= base);
    }
    let mut i: usize = 0;
    while i < n
        invariant
            i <= n,
            n == s@.len(),
            out@ == base + esc(s@.take(i as int)),
        decreases n - i,
    {
        let c = s.get_char(i);
        if c == '\\' {
            crate::stdspec::push_char(out, '\\');
            crate::stdspec::push_char(out, '\\');
        } else if c == '"' {
            crate::stdspec::push_char(out, '\\');
            crate::stdspec::push_char(out, '"');
        } else if c == '\n' {
            crate::stdspec::push_char(out, '\\');
            crate::stdspec::push_char(out, 'n');
        } else if c == '\r' {
            crate::stdspec::push_char(out, '\\');
            crate::stdspec::push_char(out, 'r');
        } else if c == '\t' {
            crate::stdspec::push_char(out, '\\');
            crate::stdspec::push_char(out, 't');
        } else if (c as u32) < 32 {
            crate::stdspec::push_char(out, '\\');
            crate::stdspec::push_char(out, 'x');
            crate::stdspec::push_char(out, hex_digit_char((c as u32 / 16) as u8));
            crate::stdspec::push_char(out, hex_digit_char((c as u32 % 16) as u8));
        } else {
            crate::stdspec::push_char(out, c);
        }
        proof {
            assert(out@ =~= base + esc(s@.take(i as int)) + esc_char(s@[i as int]));
            assert(s@.take(i + 1 as int).drop_last() =~= s@.take(i as int));
            assert(s@.take(i + 1 as int).last() == s@[i as int]);
            assert(out@ =~= base + esc(s@.take(i + 1 as int)));
        }
        i += 1;
    }
    proof {
        assert(s@.take(n as int) =~= s@);
    }
}

/// Append a double-quoted scalar.
fn push_quoted(out: &mut String, s: &str)
    ensures
        final(out)@ == old(out)@ + quoted(s@),
{
    crate::stdspec::push_char(out, '"');
    push_escaped(out, s);
    crate::stdspec::push_char(out, '"');
    proof {
        assert(final(out)@ =~= old(out)@ + quoted(s@));
    }
}

/// Append the one-line rendering of an inline value.
fn push_inline(out: &mut String, v: &DynValue)
    requires
        is_inline(v@),
    ensures
        final(out)@ == old(out)@ + inline_text(v@),
{
    match v {
        DynValue::Null => {
            out.append("null");
            proof {
                reveal_strlit("null");
                assert("null"@ =~= seq!['n', 'u', 'l', 'l']);
            }
        },
        DynValue::Bool(b) => {
            if *b {
                out.append("true");
                proof {
                    reveal_strlit("true");
                    assert("true"@ =~= seq!['t', 'r', 'u', 'e']);
                }
            } else {
                out.append("false");
                proof {
                    reveal_strlit("false");
                    assert("false"@ =~= seq!['f', 'a', 'l', 's', 'e']);
                }
            }
        },
        DynValue::Int(i) => {
            push_int(out, *i);
        },
        DynValue::Num(s) => {
            out.append(s.as_str());
        },
        DynValue::Str(s) => {
            push_quoted(out, s.as_str());
        },
        DynValue::List(_) => {
            out.append("[]");
            proof {
                reveal_strlit("[]");
                assert("[]"@ =~= seq!['[', ']']);
            }
        },
        DynValue::Mapping(_) => {
            out.append("{}");
            proof {
                reveal_strlit("{}");
                assert("{}"@ =~= seq!['{', '}']);
            }
        },
    }
}

/// Append the block rendering of a value at the given indentation prefix.
fn push_block(out: &mut String, v: &DynValue, prefix: &str, Ghost(ind): Ghost<nat>)
    requires
        prefix@ == sp(ind),
    ensures
        final(out)@ == old(out)@ + yaml_block(v@, ind),
    decreases *v, 1nat,
{
    match v {
        DynValue::Mapping(entries) => {
            push_entries(out, entries, prefix, Ghost(ind));
        },
        DynValue::List(items) => {
            push_items(out, items, prefix, Ghost(ind));
        },
        _ => {
            proof {
                assert(old(out)@ + yaml_block(v@, ind) =~= old(out)@);
            }
        },
    }
}

/// Append the block lines of a mapping's entries, in entry order.
fn push_entries(out: &mut String, entries: &Vec<(String, DynValue)>, prefix: &str, Ghost(ind): Ghost<
    nat>)
    requires
        prefix@ == sp(ind),
    ensures
        final(out)@ == old(out)@ + yaml_entries(entries_of(entries@), ind),
    decreases *entries, 0nat,
{
    let ghost base = out@;
    let ghost ev = entries_of(entries@);
    proof {
        crate::value::lemma_entries_of(entries@);
        assert(ev.take(0) =~= Seq::<(Seq<char>, Node)>::empty());
        assert(base + yaml_entries(ev.take(0), ind) =~= base);
    }
    let n = entries.len();
    let mut i: usize = 0;
    while i < n
        invariant
            i <= n,
            n == entries.len(),
            ev == entries_of(entries@),
            ev.len() == n,
            forall|j: int| 0 <= j < n ==> ev[j] == (entries@[j].0@, node_of(entries@[j].1)),
            prefix@ == sp(ind),
            out@ == base + yaml_entries(ev.take(i as int), ind),
        decreases n - i,
    {
        out.append(prefix);
        push_quoted(out, entries[i].0.as_str());
        if inline_check(&entries[i].1) {
            out.append(": ");
            push_inline(out, &entries[i].1);
            crate::stdspec::push_char(out, '\n');
            proof {
                reveal_strlit(": ");
                assert(": "@ =~= seq![':', ' ']);
                assert(out@ =~= base + yaml_entries(ev.take(i as int), ind) + sp(ind) + quoted(
                    ev[i as int].0,
                ) + (seq![':', ' '] + inline_text(ev[i as int].1) + seq!['\n']));
            }
        } else {
            out.append(":\n");
            let mut child_prefix = prefix.to_owned();
            child_prefix.append("  ");
            proof {
                reveal_strlit("  ");
                assert("  "@ =~= seq![' ', ' ']);
                assert(child_prefix@ =~= sp(ind + 2));
            }
            push_block(out, &entries[i].1, child_prefix.as_str(), Ghost(ind + 2));
            proof {
                reveal_strlit(":\n");
                assert(":\n"@ =~= seq![':', '\n']);
                assert(out@ =~= base + yaml_entries(ev.take(i as int), ind) + sp(ind) + quoted(
                    ev[i as int].0,
                ) + (seq![':', '\n'] + yaml_block(ev[i as int].1, ind + 2)));
            }
        }
        proof {
            assert(ev.take(i + 1 as int).drop_last() =~= ev.take(i as int));
            assert(ev.take(i + 1 as int).last() == ev[i as int]);
            assert(out@ =~= base + yaml_entries(ev.take(i + 1 as int), ind));
        }
        i += 1;
    }
    proof {
        assert(ev.take(n as int) =~= ev);
    }
}

/// Append the block lines of a list's elements, in order.
fn push_items(out: &mut String, items: &Vec<DynValue>, prefix: &str, Ghost(ind): Ghost<nat>)
    requires
        prefix@ == sp(ind),
    ensures
        final(out)@ == old(out)@ + yaml_items(nodes_of(items@), ind),
    decreases *items, 0nat,
{
    let ghost base = out@;
    let ghost iv = nodes_of(items@);
    proof {
        crate::value::lemma_nodes_of(items@);
        assert(iv.take(0) =~= Seq::<Node>::empty());
        assert(base + yaml_items(iv.take(0), ind) =~= base);
    }
    let n = items.len();
    let mut i: usize = 0;
    while i < n
        invariant
            i <= n,
            n == items.len(),
            iv == nodes_of(items@),
            iv.len() == n,
            forall|j: int| 0 <= j < n ==> iv[j] == node_of(items@[j]),
            prefix@ == sp(ind),
            out@ == base + yaml_items(iv.take(i as int), ind),
        decreases n - i,
    {
        out.append(prefix);
        if inline_check(&items[i]) {
            out.append("- ");
            push_inline(out, &items[i]);
            crate::stdspec::push_char(out, '\n');
            proof {
                reveal_strlit("- ");
                assert("- "@ =~= seq!['-', ' ']);
                assert(out@ =~= base + yaml_items(iv.take(i as int), ind) + sp(ind) + (seq![
                    '-',
                    ' ',
                ] + inline_text(iv[i as int]) + seq!['\n']));
            }
        } else {
            out.append("-\n");
            let mut child_prefix = prefix.to_owned();
            child_prefix.append("  ");
            proof {
                reveal_strlit("  ");
                assert("  "@ =~= seq![' ', ' ']);
                assert(child_prefix@ =~= sp(ind + 2));
            }
            push_block(out, &items[i], child_prefix.as_str(), Ghost(ind + 2));
            proof {
                reveal_strlit("-\n");
                assert("-\n"@ =~= seq!['-', '\n']);
                assert(out@ =~= base + yaml_items(iv.take(i as int), ind) + sp(ind) + (seq![
                    '-',
                    '\n',
                ] + yaml_block(iv[i as int], ind + 2)));
            }
        }
        proof {
            assert(iv.take(i + 1 as int).drop_last() =~= iv.take(i as int));
            assert(iv.take(i + 1 as int).last() == iv[i as int]);
            assert(out@ =~= base + yaml_items(iv.take(i + 1 as int), ind));
        }
        i += 1;
    }
    proof {
        assert(iv.take(n as int) =~= iv);
    }
}

/// Render one manifest document as YAML text.
pub fn render_document(doc: &DynValue) -> (r: String)
    ensures
        r@ == yaml_doc(doc@),
{
    let mut out = String::new();
    if inline_check(doc) {
        push_inline(&mut out, doc);
        crate::stdspec::push_char(&mut out, '\n');
    } else {
        proof {
            reveal_strlit("");
            assert(""@ =~= sp(0));
        }
        push_block(&mut out, doc, "", Ghost(0nat));
    }
    out
}

/// Render a document set: the one document plain, or each document of a
/// list introduced by a stream separator line, in order.
pub fn render_set(set: &DocumentSet) -> (r: String)
    ensures
        r@ == render_set_text(set@),
{
    match set {
        DocumentSet::Single(d) => render_document(d),
        DocumentSet::List(docs) => {
            let mut out = String::new();
            let ghost dv = nodes_of(docs@);
            proof {
                crate::value::lemma_nodes_of(docs@);
                assert(dv.take(0) =~= Seq::<Node>::empty());
            }
            let n = docs.len();
            let mut i: usize = 0;
            while i < n
                invariant
                    i <= n,
                    n == docs.len(),
                    dv == nodes_of(docs@),
                    dv.len() == n,
                    forall|j: int| 0 <= j < n ==> dv[j] == node_of(docs@[j]),
                    out@ == multi_docs(dv.take(i as int)),
                decreases n - i,
            {
                out.append("---\n");
                let t = render_document(&docs[i]);
                out.append(t.as_str());
                proof {
                    reveal_strlit("---\n");
                    assert("---\n"@ =~= sep());
                    assert(dv.take(i + 1 as int).drop_last() =~= dv.take(i as int));
                    assert(dv.take(i + 1 as int).last() == dv[i as int]);
                    assert(out@ =~= multi_docs(dv.take(i + 1 as int)));
                }
                i += 1;
            }
            proof {
                assert(dv.take(n as int) =~= dv);
            }
            out
        },
    }
}

} // verus!
