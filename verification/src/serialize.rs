//! The response serializer: a response laid out as the bytes that a CGI
//! programme writes to its standard output.

use crate::bytes::{
    comes_before, lemma_precedes_irreflexive, lemma_precedes_total, lemma_precedes_transitive,
    precedes, push_all,
};
use crate::headers::{has_name, plain, under, Fields, Headers};
use crate::outside::{canonical_reason, reason_phrase};
use crate::response::{length_field, type_field, Response, ResponseView};
use vstd::prelude::*;
use vstd::string::*;

verus! {

/// The three digits of a status code.
pub open spec fn status_digits(code: u16) -> Seq<u8> {
    seq![
        (0x30 + code / 100) as u8,
        (0x30 + code / 10 % 10) as u8,
        (0x30 + code % 10) as u8,
    ]
}

/// The first line of the output: `Status: `, the status code, then a space
/// and the reason phrase where there is one, and a line feed.
pub open spec fn status_line(code: u16, reason: Option<Seq<u8>>) -> Seq<u8> {
    "Status: ".spec_bytes() + status_digits(code) + match reason {
        Some(phrase) => seq![0x20u8] + phrase,
        None => Seq::<u8>::empty(),
    } + seq![0x0au8]
}

/// The lines `lines`, which are in the order of their names, with `field`
/// put in its place among them: behind every line whose name does not come
/// after its own, so behind the lines of its own name.
pub open spec fn placed(lines: Fields, field: (Seq<u8>, Seq<u8>)) -> Fields
    decreases lines.len(),
{
    if lines.len() > 0 && precedes(field.0, lines.last().0) {
        placed(lines.drop_last(), field).push(lines.last())
    } else {
        lines.push(field)
    }
}

/// The fields of `h` in the order of their names, fields of one name in the
/// order in which `h` has them.
pub open spec fn in_order(h: Fields) -> Fields
    decreases h.len(),
{
    if h.len() == 0 {
        Fields::empty()
    } else {
        placed(in_order(h.drop_last()), h.last())
    }
}

/// The header lines of the output: one for every field of `h`, in ascending
/// order of the names; the fields of one name stand in the order in which
/// they were added.
pub open spec fn header_lines(h: Fields) -> Fields {
    in_order(h)
}

/// One header line: the name, a colon and a space, the value, a line feed.
pub open spec fn line(field: (Seq<u8>, Seq<u8>)) -> Seq<u8> {
    field.0 + ": ".spec_bytes() + field.1 + seq![0x0au8]
}

/// The lines one after the other.
pub open spec fn lines_text(lines: Fields) -> Seq<u8>
    decreases lines.len(),
{
    if lines.len() == 0 {
        Seq::<u8>::empty()
    } else {
        lines_text(lines.drop_last()) + line(lines.last())
    }
}

/// The output for a response: the status line with the reason phrase
/// `reason`, the header lines, an empty line, and the body as it is.
pub open spec fn serialized(response: ResponseView, reason: Option<Seq<u8>>) -> Seq<u8> {
    status_line(response.status, reason) + lines_text(header_lines(response.headers)) + seq![
        0x0au8,
    ] + response.body
}

/// The fields of `h` at the places `order`.
pub open spec fn picked(h: Fields, order: Seq<usize>) -> Fields {
    Seq::new(order.len(), |k: int| h[order[k] as int])
}

/// Putting a field in its place is inserting it behind the last line whose
/// name does not come after its own.
proof fn lemma_placed_at(lines: Fields, field: (Seq<u8>, Seq<u8>), p: int)
    requires
        0 <= p <= lines.len(),
        forall|k: int| p <= k < lines.len() ==> precedes(field.0, #[trigger] lines[k].0),
        p > 0 ==> !precedes(field.0, lines[p - 1].0),
    ensures
        placed(lines, field) == lines.insert(p, field),
    decreases lines.len() - p,
{
    if p == lines.len() {
        assert(lines.push(field) =~= lines.insert(p, field));
    } else {
        let front = lines.drop_last();
        lemma_placed_at(front, field, p);
        assert(front.insert(p, field).push(lines.last()) =~= lines.insert(p, field));
    }
}

/// The places in `fields` of the header lines, in the order of the lines.
fn line_order(fields: &Vec<(Vec<u8>, Vec<u8>)>) -> (order: Vec<usize>)
    ensures
        forall|k: int| 0 <= k < order@.len() ==> #[trigger] order@[k] < fields@.len(),
        picked(plain(fields@), order@) == header_lines(plain(fields@)),
{
    let ghost h = plain(fields@);
    let mut order: Vec<usize> = Vec::new();
    let mut i: usize = 0;
    let n = fields.len();
    assert(h.take(0) =~= Fields::empty());
    assert(picked(h, order@) =~= Fields::empty());
    while i < n
        invariant
            i <= n == fields@.len(),
            h == plain(fields@),
            forall|k: int| 0 <= k < order@.len() ==> #[trigger] order@[k] < i,
            picked(h, order@) == header_lines(h.take(i as int)),
        decreases n - i,
    {
        let ghost next = h.take(i + 1);
        assert(next.drop_last() =~= h.take(i as int));
        assert(next.last() == h[i as int]);
        let ghost lines = picked(h, order@);
        let ghost field = h[i as int];
        let name = fields[i].0.as_slice();
        let mut p: usize = order.len();
        while p > 0 && comes_before(name, fields[order[p - 1]].0.as_slice())
            invariant
                p <= order@.len(),
                i < fields@.len(),
                h == plain(fields@),
                name@ == field.0,
                field == h[i as int],
                lines == picked(h, order@),
                forall|k: int| 0 <= k < order@.len() ==> #[trigger] order@[k] < i,
                forall|k: int| p <= k < lines.len() ==> precedes(field.0, #[trigger] lines[k].0),
            decreases p,
        {
            p -= 1;
        }
        proof {
            lemma_placed_at(lines, field, p as int);
        }
        order.insert(p, i);
        assert(picked(h, order@) =~= lines.insert(p as int, field));
        i += 1;
    }
    assert(h.take(i as int) =~= h);
    order
}

/// Puts the header lines of `headers` at the end of `out`.
fn push_header_lines(out: &mut Vec<u8>, headers: &Headers)
    ensures
        final(out)@ == old(out)@ + lines_text(header_lines(headers@)),
{
    let fields = headers.fields();
    let order = line_order(&fields);
    let ghost h = plain(fields@);
    let ghost lines = header_lines(h);
    let mut k: usize = 0;
    assert(lines.take(0) =~= Fields::empty());
    assert(out@ =~= old(out)@ + lines_text(lines.take(0)));
    while k < order.len()
        invariant
            k <= order@.len() == lines.len(),
            h == plain(fields@),
            lines == picked(h, order@),
            forall|j: int| 0 <= j < order@.len() ==> #[trigger] order@[j] < fields@.len(),
            out@ == old(out)@ + lines_text(lines.take(k as int)),
        decreases order@.len() - k,
    {
        let ghost before = out@;
        let at = order[k];
        push_all(out, fields[at].0.as_slice());
        push_all(out, ": ".as_bytes());
        push_all(out, fields[at].1.as_slice());
        out.push(0x0a);
        proof {
            assert(lines.take(k + 1).drop_last() =~= lines.take(k as int));
            assert(lines.take(k + 1).last() == lines[k as int]);
            assert(out@ =~= before + line(lines[k as int]));
            assert(out@ =~= old(out)@ + lines_text(lines.take(k + 1)));
        }
        k += 1;
    }
    assert(lines.take(k as int) =~= lines);
}

/// Lays a response out for standard output, with `reason` as the reason
/// phrase of its status: the line `Status: <code>`, with a space and the
/// phrase behind the code where there is one; a line `<name>: <value>` for
/// every header field, in ascending order of the names, fields of one name
/// in the order in which they were added; an empty line; the body,
/// untouched. Lines end in a line feed.
pub fn serialize_with_reason(response: Response, reason: Option<Vec<u8>>) -> (out: Vec<u8>)
    ensures
        out@ == serialized(
            response@,
            match reason {
                Some(phrase) => Some(phrase@),
                None => None,
            },
        ),
{
    let mut out: Vec<u8> = Vec::new();
    let code = response.status();
    push_all(&mut out, "Status: ".as_bytes());
    out.push(0x30 + (code / 100) as u8);
    out.push(0x30 + (code / 10 % 10) as u8);
    out.push(0x30 + (code % 10) as u8);
    match &reason {
        Some(phrase) => {
            out.push(0x20);
            push_all(&mut out, phrase.as_slice());
        },
        None => {},
    }
    out.push(0x0a);
    assert(out@ =~= status_line(
        code,
        match reason {
            Some(phrase) => Some(phrase@),
            None => None,
        },
    ));
    push_header_lines(&mut out, response.headers());
    out.push(0x0a);
    push_all(&mut out, response.body());
    out
}

/// Lays a response out for standard output, with the canonical reason phrase
/// of its status code, where the code has one.
pub fn serialize_response(response: Response) -> (out: Vec<u8>)
    ensures
        out@ == serialized(response@, reason_phrase(response@.status)),
{
    let reason = canonical_reason(response.status());
    serialize_with_reason(response, reason)
}

/// The names of the lines never go down: no line has a name that comes
/// before the name of a line above it.
pub open spec fn ordered(lines: Fields) -> bool {
    forall|i: int, j: int|
        0 <= i < j < lines.len() ==> !precedes(#[trigger] lines[j].0, #[trigger] lines[i].0)
}

/// There are fields under a name exactly where some field has the name.
proof fn lemma_under_has_name(h: Fields, name: Seq<u8>)
    ensures
        under(h, name).len() > 0 <==> has_name(h, name),
    decreases h.len(),
{
    if h.len() > 0 {
        let front = h.drop_last();
        lemma_under_has_name(front, name);
        if has_name(front, name) {
            let i = choose|i: int| 0 <= i < front.len() && #[trigger] front[i].0 == name;
            assert(h[i].0 == name);
        }
        if h.last().0 == name {
            assert(h[h.len() - 1].0 == name);
        }
        if has_name(h, name) && h.last().0 != name {
            let i = choose|i: int| 0 <= i < h.len() && #[trigger] h[i].0 == name;
            assert(front[i].0 == name);
        }
    }
}

/// A field put in its place joins the fields of its name behind them, and
/// leaves the fields of every other name as they are.
proof fn lemma_placed_under(lines: Fields, field: (Seq<u8>, Seq<u8>), name: Seq<u8>)
    ensures
        placed(lines, field).len() == lines.len() + 1,
        under(placed(lines, field), name) == if field.0 == name {
            under(lines, name).push(field)
        } else {
            under(lines, name)
        },
    decreases lines.len(),
{
    if lines.len() > 0 && precedes(field.0, lines.last().0) {
        let front = lines.drop_last();
        lemma_placed_under(front, field, name);
        lemma_precedes_irreflexive(field.0);
        assert(placed(lines, field).drop_last() =~= placed(front, field));
    } else {
        assert(lines.push(field).drop_last() =~= lines);
    }
}

/// A field put in its place among lines whose names never go down leaves
/// them so.
proof fn lemma_placed_ordered(lines: Fields, field: (Seq<u8>, Seq<u8>))
    requires
        ordered(lines),
    ensures
        ordered(placed(lines, field)),
        forall|k: int|
            0 <= k < placed(lines, field).len() ==> #[trigger] placed(lines, field)[k] == field
                || lines.contains(placed(lines, field)[k]),
    decreases lines.len(),
{
    let result = placed(lines, field);
    if lines.len() > 0 && precedes(field.0, lines.last().0) {
        let front = lines.drop_last();
        let last = lines.last();
        assert(ordered(front)) by {
            assert forall|i: int, j: int| 0 <= i < j < front.len() implies !precedes(
                #[trigger] front[j].0,
                #[trigger] front[i].0,
            ) by {
                assert(!precedes(lines[j].0, lines[i].0));
            }
        }
        lemma_placed_ordered(front, field);
        let inner = placed(front, field);
        assert forall|k: int| 0 <= k < result.len() implies #[trigger] result[k] == field
            || lines.contains(result[k]) by {
            if k < inner.len() {
                if inner[k] != field {
                    let m = choose|m: int| 0 <= m < front.len() && front[m] == inner[k];
                    assert(lines[m] == result[k]);
                }
            } else {
                assert(lines[lines.len() - 1] == result[k]);
            }
        }
        assert forall|i: int, j: int| 0 <= i < j < result.len() implies !precedes(
            #[trigger] result[j].0,
            #[trigger] result[i].0,
        ) by {
            if j < inner.len() {
                assert(!precedes(inner[j].0, inner[i].0));
            } else if inner[i] == field {
                if precedes(last.0, field.0) {
                    lemma_precedes_transitive(field.0, last.0, field.0);
                    lemma_precedes_irreflexive(field.0);
                }
            } else {
                let m = choose|m: int| 0 <= m < front.len() && front[m] == inner[i];
                assert(!precedes(lines[lines.len() - 1].0, lines[m].0));
            }
        }
    } else {
        assert forall|k: int| 0 <= k < result.len() implies #[trigger] result[k] == field
            || lines.contains(result[k]) by {
            if k < lines.len() {
                assert(lines[k] == result[k]);
            }
        }
        assert forall|i: int, j: int| 0 <= i < j < result.len() implies !precedes(
            #[trigger] result[j].0,
            #[trigger] result[i].0,
        ) by {
            if j < lines.len() {
                assert(!precedes(lines[j].0, lines[i].0));
            } else {
                let top = lines.len() - 1;
                let last = lines[top];
                if i < top && precedes(field.0, lines[i].0) {
                    assert(!precedes(lines[top].0, lines[i].0));
                    lemma_precedes_total(lines[i].0, last.0);
                    if lines[i].0 != last.0 {
                        lemma_precedes_transitive(field.0, lines[i].0, last.0);
                    }
                }
            }
        }
    }
}

/// Fields put in order are as many as before, their names never go down,
/// and the fields of each name keep their order.
proof fn lemma_in_order(h: Fields)
    ensures
        ordered(in_order(h)),
        in_order(h).len() == h.len(),
        forall|name: Seq<u8>| #[trigger] under(in_order(h), name) == under(h, name),
    decreases h.len(),
{
    if h.len() > 0 {
        let front = h.drop_last();
        lemma_in_order(front);
        lemma_placed_ordered(in_order(front), h.last());
        assert forall|name: Seq<u8>| #[trigger] under(in_order(h), name) == under(h, name) by {
            lemma_placed_under(in_order(front), h.last(), name);
            assert(under(in_order(front), name) == under(front, name));
        }
        lemma_placed_under(in_order(front), h.last(), h.last().0);
    }
}

/// The header lines stand in the order of their names, whatever the order of
/// the fields of the response: no line has a name that comes before the name
/// of a line above it.
pub proof fn lemma_header_lines_ordered(h: Fields)
    ensures
        ordered(header_lines(h)),
{
    lemma_in_order(h);
}

/// Every field has its line, and no value is dropped: there are as many
/// header lines as fields, and under each name the lines are the fields of
/// that name, in the order in which they were added.
pub proof fn lemma_header_lines_every_field(h: Fields)
    ensures
        header_lines(h).len() == h.len(),
        forall|name: Seq<u8>| #[trigger] under(header_lines(h), name) == under(h, name),
{
    lemma_in_order(h);
}

/// Lines whose names never go down are fixed by the fields they hold under
/// each name.
proof fn lemma_ordered_unique(a: Fields, b: Fields)
    requires
        ordered(a),
        ordered(b),
        forall|name: Seq<u8>| #[trigger] under(a, name) == under(b, name),
    ensures
        a == b,
    decreases a.len(),
{
    if a.len() == 0 {
        if b.len() > 0 {
            let n = b[0].0;
            lemma_under_has_name(b, n);
            assert(under(a, n) == under(b, n));
        }
        assert(a =~= b);
    } else {
        let top = a.len() - 1;
        let m = a[top].0;
        lemma_under_has_name(a, m);
        lemma_under_has_name(b, m);
        assert(under(a, m) == under(b, m));
        let j = choose|j: int| 0 <= j < b.len() && #[trigger] b[j].0 == m;
        let end = b.len() - 1;
        let w = b[end].0;
        lemma_under_has_name(a, w);
        lemma_under_has_name(b, w);
        assert(under(a, w) == under(b, w));
        let i = choose|i: int| 0 <= i < a.len() && #[trigger] a[i].0 == w;
        if i < top {
            assert(!precedes(a[top].0, a[i].0));
        }
        if j < end {
            assert(!precedes(b[end].0, b[j].0));
        }
        lemma_precedes_total(m, w);
        assert(m == w);
        let x = a.drop_last();
        let y = b.drop_last();
        assert(under(x, m).push(a[top]) == under(y, m).push(b[end]));
        assert(under(x, m).push(a[top]).last() == a[top]);
        assert(under(y, m).push(b[end]).last() == b[end]);
        assert(a[top] == b[end]);
        assert(ordered(x)) by {
            assert forall|p: int, q: int| 0 <= p < q < x.len() implies !precedes(
                #[trigger] x[q].0,
                #[trigger] x[p].0,
            ) by {
                assert(!precedes(a[q].0, a[p].0));
            }
        }
        assert(ordered(y)) by {
            assert forall|p: int, q: int| 0 <= p < q < y.len() implies !precedes(
                #[trigger] y[q].0,
                #[trigger] y[p].0,
            ) by {
                assert(!precedes(b[q].0, b[p].0));
            }
        }
        assert forall|name: Seq<u8>| #[trigger] under(x, name) == under(y, name) by {
            assert(under(a, name) == under(b, name));
            if name == m {
                assert(under(x, m).push(a[top]).drop_last() =~= under(x, m));
                assert(under(y, m).push(b[end]).drop_last() =~= under(y, m));
            }
        }
        lemma_ordered_unique(x, y);
        assert(a =~= x.push(a[top]));
        assert(b =~= y.push(b[end]));
    }
}

/// The header lines are the only lines of their kind: lines whose names
/// never go down and which hold, under each name, the fields that `h` holds
/// under it, in the same order, are the header lines of `h`.
pub proof fn lemma_header_lines_unique(h: Fields, lines: Fields)
    requires
        ordered(lines),
        forall|name: Seq<u8>| #[trigger] under(lines, name) == under(h, name),
    ensures
        lines == header_lines(h),
{
    lemma_in_order(h);
    assert forall|name: Seq<u8>| #[trigger] under(lines, name) == under(
        header_lines(h),
        name,
    ) by {
        assert(under(lines, name) == under(h, name));
        assert(under(header_lines(h), name) == under(h, name));
    }
    lemma_ordered_unique(lines, header_lines(h));
}

/// The order in which the fields were added shows in the output only among
/// the fields of one name: two sets of fields that hold the same fields in
/// the same order under every name have the same header lines.
pub proof fn lemma_header_lines_order_independent(h: Fields, g: Fields)
    requires
        forall|name: Seq<u8>| #[trigger] under(h, name) == under(g, name),
    ensures
        header_lines(h) == header_lines(g),
{
    lemma_in_order(g);
    assert forall|name: Seq<u8>| #[trigger] under(header_lines(g), name) == under(h, name) by {
        assert(under(h, name) == under(g, name));
        assert(under(header_lines(g), name) == under(g, name));
    }
    lemma_header_lines_unique(h, header_lines(g));
}

/// `content-length` comes before `content-type`.
proof fn lemma_length_before_type()
    ensures
        precedes("content-length".spec_bytes(), "content-type".spec_bytes()),
{
    reveal_strlit("content-length");
    reveal_strlit("content-type");
    is_ascii_spec_bytes("content-length");
    is_ascii_spec_bytes("content-type");
    let a = "content-length".spec_bytes();
    let b = "content-type".spec_bytes();
    assert(a.skip(8)[0] < b.skip(8)[0]);
    assert(precedes(a.skip(8), b.skip(8)));
    assert(a.skip(7).drop_first() =~= a.skip(8) && b.skip(7).drop_first() =~= b.skip(8));
    assert(precedes(a.skip(7), b.skip(7)));
    assert(a.skip(6).drop_first() =~= a.skip(7) && b.skip(6).drop_first() =~= b.skip(7));
    assert(precedes(a.skip(6), b.skip(6)));
    assert(a.skip(5).drop_first() =~= a.skip(6) && b.skip(5).drop_first() =~= b.skip(6));
    assert(precedes(a.skip(5), b.skip(5)));
    assert(a.skip(4).drop_first() =~= a.skip(5) && b.skip(4).drop_first() =~= b.skip(5));
    assert(precedes(a.skip(4), b.skip(4)));
    assert(a.skip(3).drop_first() =~= a.skip(4) && b.skip(3).drop_first() =~= b.skip(4));
    assert(precedes(a.skip(3), b.skip(3)));
    assert(a.skip(2).drop_first() =~= a.skip(3) && b.skip(2).drop_first() =~= b.skip(3));
    assert(precedes(a.skip(2), b.skip(2)));
    assert(a.skip(1).drop_first() =~= a.skip(2) && b.skip(1).drop_first() =~= b.skip(2));
    assert(precedes(a.skip(1), b.skip(1)));
    assert(a.drop_first() =~= a.skip(1) && b.drop_first() =~= b.skip(1));
}

/// What the shortcuts announce reaches the output. A response that holds the
/// length of its body and a media type, in either order, has two header
/// lines: `content-length`, with the exact length of the body in decimal, and
/// after it `content-type`. A response that holds the length alone has the
/// one line `content-length`, and none for a media type.
pub proof fn lemma_shortcut_lines(media_type: Seq<u8>, body: Seq<u8>)
    ensures
        header_lines(seq![type_field(media_type), length_field(body)]) == seq![
            length_field(body),
            type_field(media_type),
        ],
        header_lines(seq![length_field(body), type_field(media_type)]) == seq![
            length_field(body),
            type_field(media_type),
        ],
        header_lines(seq![length_field(body)]) == seq![length_field(body)],
{
    let length = length_field(body);
    let kind = type_field(media_type);
    lemma_length_before_type();
    if precedes(kind.0, length.0) {
        lemma_precedes_transitive(length.0, kind.0, length.0);
    }
    lemma_precedes_irreflexive(length.0);
    let none = Fields::empty();
    assert(seq![kind, length].drop_last() =~= seq![kind]);
    assert(seq![length, kind].drop_last() =~= seq![length]);
    assert(seq![kind].drop_last() =~= none);
    assert(seq![length].drop_last() =~= none);
    assert(in_order(none) =~= none);
    assert(placed(none, kind) =~= seq![kind]);
    assert(placed(none, length) =~= seq![length]);
    assert(in_order(seq![kind]) == placed(in_order(none), kind));
    assert(in_order(seq![length]) == placed(in_order(none), length));
    assert(placed(seq![kind], length) =~= seq![length, kind]);
    assert(placed(seq![length], kind) =~= seq![length, kind]);
    assert(in_order(seq![kind, length]) == placed(in_order(seq![kind]), length));
    assert(in_order(seq![length, kind]) == placed(in_order(seq![length]), kind));
}

/// The output of a response built by a shortcut, each of which announces the
/// length of its body: after the status line come the line `content-length`,
/// with the exact length of the body, then the line `content-type` where a
/// media type was given, then the empty line and the body. For the empty
/// response that is `content-length: 0` and an empty body.
pub proof fn lemma_shortcut_output(
    status: u16,
    media_type: Option<Seq<u8>>,
    body: Seq<u8>,
    reason: Option<Seq<u8>>,
    length_first: bool,
)
    ensures
        serialized(
            ResponseView {
                status,
                headers: match media_type {
                    Some(t) => if length_first {
                        seq![length_field(body), type_field(t)]
                    } else {
                        seq![type_field(t), length_field(body)]
                    },
                    None => seq![length_field(body)],
                },
                body,
            },
            reason,
        ) == status_line(status, reason) + line(length_field(body)) + match media_type {
            Some(t) => line(type_field(t)),
            None => Seq::<u8>::empty(),
        } + seq![0x0au8] + body,
{
    let length = length_field(body);
    reveal_with_fuel(lines_text, 3);
    assert(seq![length].drop_last() =~= Fields::empty());
    match media_type {
        Some(t) => {
            lemma_shortcut_lines(t, body);
            assert(seq![length, type_field(t)].drop_last() =~= seq![length]);
            assert(lines_text(seq![length, type_field(t)]) =~= line(length) + line(
                type_field(t),
            ));
        },
        None => {
            lemma_shortcut_lines(Seq::<u8>::empty(), body);
            assert(lines_text(seq![length]) =~= line(length) + Seq::<u8>::empty());
        },
    }
}

} // verus!
