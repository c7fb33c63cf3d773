//! The managed section of a text file: a block of lines that starts with the
//! exact line `###### gakun begin` and ends with the exact line
//! `###### gakun end`. Any other line, whatever text it holds, is content.
//!
//! Text is handled as bytes, split into lines at each newline byte only, so a
//! carriage return stays part of its line. Stripping drops every managed block
//! and keeps all other lines, each newline-terminated. A second opening line
//! inside a block does not nest, and a block that is never closed runs to the
//! end of the text. Splicing puts a freshly rendered block in front of what
//! stripping leaves.
use vstd::prelude::*;
use vstd::string::StringSliceAdditionalSpecFns;

verus! {

/// The newline byte that ends every line.
pub const NEWLINE: u8 = 10;

/// The line written at the top of a rendered block: `###### gakun begin`.
pub open spec fn begin_line() -> Seq<u8> {
    seq![
        35u8, 35u8, 35u8, 35u8, 35u8, 35u8, 32u8,
        103u8, 97u8, 107u8, 117u8, 110u8, 32u8, 98u8, 101u8, 103u8, 105u8, 110u8,
    ]
}

/// The line written at the bottom of a rendered block: `###### gakun end`.
pub open spec fn end_line() -> Seq<u8> {
    seq![
        35u8, 35u8, 35u8, 35u8, 35u8, 35u8, 32u8,
        103u8, 97u8, 107u8, 117u8, 110u8, 32u8, 101u8, 110u8, 100u8,
    ]
}

/// Start of the line that names the host alias.
pub open spec fn host_prefix() -> Seq<u8> {
    seq![72u8, 111u8, 115u8, 116u8, 32u8]
}

/// Start of the line that gives the host's address.
pub open spec fn hostname_prefix() -> Seq<u8> {
    seq![32u8, 32u8, 72u8, 111u8, 115u8, 116u8, 110u8, 97u8, 109u8, 101u8, 32u8]
}

/// Start of the line that gives the key file.
pub open spec fn identity_prefix() -> Seq<u8> {
    seq![
        32u8, 32u8, 73u8, 100u8, 101u8, 110u8, 116u8, 105u8, 116u8, 121u8,
        70u8, 105u8, 108u8, 101u8, 32u8,
    ]
}

/// Whether `line` is, exactly, the line that opens a block.
pub open spec fn opens_block(line: Seq<u8>) -> bool {
    line == begin_line()
}

/// Whether `line` is, exactly, the line that closes a block.
pub open spec fn closes_block(line: Seq<u8>) -> bool {
    line == end_line()
}

/// The lines of `text`, where the first one continues a line that already holds `cur`.
/// A final line without a newline still counts; a newline at the very end opens none.
pub open spec fn lines_from(text: Seq<u8>, cur: Seq<u8>) -> Seq<Seq<u8>>
    decreases text.len(),
{
    if text.len() == 0 {
        if cur.len() == 0 {
            Seq::empty()
        } else {
            seq![cur]
        }
    } else if text[0] == NEWLINE {
        seq![cur] + lines_from(text.drop_first(), Seq::empty())
    } else {
        lines_from(text.drop_first(), cur.push(text[0]))
    }
}

/// The lines of `text`, without their newline bytes.
pub open spec fn lines(text: Seq<u8>) -> Seq<Seq<u8>> {
    lines_from(text, Seq::empty())
}

/// Whether the scan is inside a block after reading `line`.
pub open spec fn next_inside(line: Seq<u8>, inside: bool) -> bool {
    if opens_block(line) {
        true
    } else if closes_block(line) {
        false
    } else {
        inside
    }
}

/// Whether `line` is kept by the scan, given whether it was inside a block.
pub open spec fn kept(line: Seq<u8>, inside: bool) -> bool {
    !opens_block(line) && !closes_block(line) && !inside
}

/// The lines that stay once every managed block is dropped, the scan starting
/// inside a block or not.
pub open spec fn outside_lines(ls: Seq<Seq<u8>>, inside: bool) -> Seq<Seq<u8>>
    decreases ls.len(),
{
    if ls.len() == 0 {
        Seq::empty()
    } else {
        let rest = outside_lines(ls.drop_first(), next_inside(ls[0], inside));
        if kept(ls[0], inside) {
            seq![ls[0]] + rest
        } else {
            rest
        }
    }
}

/// Each line followed by a newline.
pub open spec fn join_lines(ls: Seq<Seq<u8>>) -> Seq<u8>
    decreases ls.len(),
{
    if ls.len() == 0 {
        Seq::empty()
    } else {
        ls[0] + seq![NEWLINE] + join_lines(ls.drop_first())
    }
}

/// `text` with its managed blocks removed.
pub open spec fn stripped(text: Seq<u8>) -> Seq<u8> {
    join_lines(outside_lines(lines(text), false))
}

/// The lines of the block that points `host` at the key file `key`.
pub open spec fn block_lines(host: Seq<u8>, key: Seq<u8>) -> Seq<Seq<u8>> {
    seq![
        begin_line(),
        host_prefix() + host,
        hostname_prefix() + host,
        identity_prefix() + key,
        end_line(),
    ]
}

/// The block that points `host` at the key file `key`, as text.
pub open spec fn rendered(host: Seq<u8>, key: Seq<u8>) -> Seq<u8> {
    join_lines(block_lines(host, key))
}

/// `text` with its blocks replaced by the block for `entry`, or only removed
/// when there is none.
pub open spec fn spliced(text: Seq<u8>, entry: Option<(Seq<u8>, Seq<u8>)>) -> Seq<u8> {
    match entry {
        Some((host, key)) => rendered(host, key) + stripped(text),
        None => stripped(text),
    }
}

/// A host or a key path that a block can hold and give back intact: a single
/// line.
pub open spec fn fits_block(field: Seq<u8>) -> bool {
    !field.contains(NEWLINE)
}

/// Whether `a` and `b` hold the same bytes.
fn same_bytes(a: &[u8], b: &[u8]) -> (r: bool)
    ensures
        r == (a@ == b@),
{
    if a.len() != b.len() {
        return false;
    }
    let mut i: usize = 0;
    while i < a.len()
        invariant
            a@.len() == b@.len(),
            i <= a@.len(),
            forall|m: int| 0 <= m < i ==> a@[m] == b@[m],
        decreases a@.len() - i,
    {
        if a[i] != b[i] {
            return false;
        }
        i = i + 1;
    }
    assert(a@ =~= b@);
    true
}

/// Appends every byte of `src` to `out`.
fn push_all(out: &mut Vec<u8>, src: &[u8])
    ensures
        final(out)@ == old(out)@ + src@,
{
    let mut i: usize = 0;
    while i < src.len()
        invariant
            i <= src@.len(),
            out@ == old(out)@ + src@.subrange(0, i as int),
        decreases src@.len() - i,
    {
        out.push(src[i]);
        i = i + 1;
        assert(out@ =~= old(out)@ + src@.subrange(0, i as int));
    }
    assert(src@.subrange(0, src@.len() as int) =~= src@);
}

/// Feeds one finished line to the scan: writes it to `out` when it is kept,
/// and returns whether the scan is inside a block afterwards.
fn take_line(out: &mut Vec<u8>, line: &[u8], inside: bool, begin: &[u8], end: &[u8]) -> (r: bool)
    requires
        begin@ == begin_line(),
        end@ == end_line(),
    ensures
        r == next_inside(line@, inside),
        final(out)@ == if kept(line@, inside) {
            old(out)@ + line@ + seq![NEWLINE]
        } else {
            old(out)@
        },
{
    if same_bytes(line, begin) {
        true
    } else if same_bytes(line, end) {
        false
    } else {
        if !inside {
            push_all(out, line);
            out.push(NEWLINE);
        }
        inside
    }
}

/// Removes every managed block from `text`. The lines that stay keep their
/// order and bytes, each ends with a newline, and nothing else is added.
pub fn strip_managed_block(text: &[u8]) -> (r: Vec<u8>)
    ensures
        r@ == stripped(text@),
{
    let begin = begin_line_bytes();
    let end = end_line_bytes();
    let n: usize = text.len();
    let mut out: Vec<u8> = Vec::new();
    let mut cur: Vec<u8> = Vec::new();
    let mut inside = false;
    let mut i: usize = 0;
    assert(text@.subrange(0, n as int) =~= text@);
    while i < n
        invariant
            n == text@.len(),
            i <= n,
            begin@ == begin_line(),
            end@ == end_line(),
            stripped(text@) == out@ + join_lines(
                outside_lines(lines_from(text@.subrange(i as int, n as int), cur@), inside),
            ),
        decreases n - i,
    {
        let b = text[i];
        let ghost rest = text@.subrange(i + 1, n as int);
        assert(text@.subrange(i as int, n as int).drop_first() =~= rest);
        if b == NEWLINE {
            let ghost line = cur@;
            let ghost was_inside = inside;
            let ghost before = out@;
            inside = take_line(&mut out, cur.as_slice(), inside, begin.as_slice(), end.as_slice());
            cur = Vec::new();
            let ghost tail = lines_from(rest, Seq::empty());
            assert((seq![line] + tail).drop_first() =~= tail);
            proof {
                lemma_scan_one(line, tail, was_inside);
            }
        } else {
            cur.push(b);
        }
        i = i + 1;
    }
    assert(text@.subrange(n as int, n as int) =~= Seq::<u8>::empty());
    if cur.len() > 0 {
        let ghost line = cur@;
        let ghost was_inside = inside;
        let ghost before = out@;
        take_line(&mut out, cur.as_slice(), inside, begin.as_slice(), end.as_slice());
        assert(seq![line].drop_first() =~= Seq::<Seq<u8>>::empty());
        proof {
            lemma_scan_one(line, Seq::empty(), was_inside);
            assert(seq![line] + Seq::<Seq<u8>>::empty() =~= seq![line]);
        }
    }
    assert(out@ + Seq::<u8>::empty() =~= out@);
    out
}

/// What the scan writes for one line, and where it goes on from.
proof fn lemma_scan_one(line: Seq<u8>, tail: Seq<Seq<u8>>, inside: bool)
    ensures
        join_lines(outside_lines(seq![line] + tail, inside)) == (if kept(line, inside) {
            line + seq![NEWLINE]
        } else {
            Seq::empty()
        }) + join_lines(outside_lines(tail, next_inside(line, inside))),
{
    let ls = seq![line] + tail;
    assert(ls.drop_first() =~= tail);
    assert(ls[0] == line);
    let o = outside_lines(tail, next_inside(line, inside));
    if kept(line, inside) {
        let ks = seq![line] + o;
        assert(ks.drop_first() =~= o);
        assert(ks[0] == line);
        assert(join_lines(ks) =~= line + seq![NEWLINE] + join_lines(o));
    } else {
        assert(Seq::<u8>::empty() + join_lines(o) =~= join_lines(o));
    }
}


fn begin_line_bytes() -> (r: Vec<u8>)
    ensures
        r@ == begin_line(),
{
    let r = vec![
        35u8, 35u8, 35u8, 35u8, 35u8, 35u8, 32u8,
        103u8, 97u8, 107u8, 117u8, 110u8, 32u8, 98u8, 101u8, 103u8, 105u8, 110u8,
    ];
    assert(r@ =~= begin_line());
    r
}

fn end_line_bytes() -> (r: Vec<u8>)
    ensures
        r@ == end_line(),
{
    let r = vec![
        35u8, 35u8, 35u8, 35u8, 35u8, 35u8, 32u8,
        103u8, 97u8, 107u8, 117u8, 110u8, 32u8, 101u8, 110u8, 100u8,
    ];
    assert(r@ =~= end_line());
    r
}

fn host_prefix_bytes() -> (r: Vec<u8>)
    ensures
        r@ == host_prefix(),
{
    let r = vec![72u8, 111u8, 115u8, 116u8, 32u8];
    assert(r@ =~= host_prefix());
    r
}

fn hostname_prefix_bytes() -> (r: Vec<u8>)
    ensures
        r@ == hostname_prefix(),
{
    let r = vec![32u8, 32u8, 72u8, 111u8, 115u8, 116u8, 110u8, 97u8, 109u8, 101u8, 32u8];
    assert(r@ =~= hostname_prefix());
    r
}

fn identity_prefix_bytes() -> (r: Vec<u8>)
    ensures
        r@ == identity_prefix(),
{
    let r = vec![
        32u8, 32u8, 73u8, 100u8, 101u8, 110u8, 116u8, 105u8, 116u8, 121u8,
        70u8, 105u8, 108u8, 101u8, 32u8,
    ];
    assert(r@ =~= identity_prefix());
    r
}

/// Appends `head` and `tail` as one newline-terminated line.
fn push_line(out: &mut Vec<u8>, head: &[u8], tail: &[u8])
    ensures
        final(out)@ == old(out)@ + (head@ + tail@) + seq![NEWLINE],
{
    push_all(out, head);
    push_all(out, tail);
    out.push(NEWLINE);
    assert(out@ =~= old(out)@ + (head@ + tail@) + seq![NEWLINE]);
}

/// Joining a line in front of others writes it first, then its newline.
pub proof fn lemma_join_cons(line: Seq<u8>, ls: Seq<Seq<u8>>)
    ensures
        join_lines(seq![line] + ls) == line + seq![NEWLINE] + join_lines(ls),
{
    let all = seq![line] + ls;
    assert(all.drop_first() =~= ls);
    assert(all[0] == line);
}

/// The block that points `host` at `key`: the begin line, the host stanza
/// and the end line, each ending in a newline.
pub fn render_block(host: &str, key: &str) -> (r: Vec<u8>)
    ensures
        r@ == rendered(host.spec_bytes(), key.spec_bytes()),
{
    let h = host.as_bytes();
    let k = key.as_bytes();
    let mut r: Vec<u8> = Vec::new();
    let begin = begin_line_bytes();
    let end = end_line_bytes();
    let hp = host_prefix_bytes();
    let np = hostname_prefix_bytes();
    let ip = identity_prefix_bytes();
    let empty: Vec<u8> = Vec::new();
    push_line(&mut r, begin.as_slice(), empty.as_slice());
    push_line(&mut r, hp.as_slice(), h);
    push_line(&mut r, np.as_slice(), h);
    push_line(&mut r, ip.as_slice(), k);
    push_line(&mut r, end.as_slice(), empty.as_slice());
    proof {
        let ls = block_lines(h@, k@);
        let l4 = seq![ls[4]];
        let l3 = seq![ls[3]] + l4;
        let l2 = seq![ls[2]] + l3;
        let l1 = seq![ls[1]] + l2;
        assert(ls =~= seq![ls[0]] + l1);
        lemma_join_cons(ls[0], l1);
        lemma_join_cons(ls[1], l2);
        lemma_join_cons(ls[2], l3);
        lemma_join_cons(ls[3], l4);
        lemma_join_cons(ls[4], Seq::empty());
        assert(seq![ls[4]] + Seq::<Seq<u8>>::empty() =~= l4);
        assert(begin@ + empty@ =~= begin_line());
        assert(end@ + empty@ =~= end_line());
        assert(r@ =~= rendered(h@, k@));
    }
    r
}

/// The host and key of `block` as bytes.
pub open spec fn entry_bytes(block: Option<(&str, &str)>) -> Option<(Seq<u8>, Seq<u8>)> {
    match block {
        Some((host, key)) => Some((host.spec_bytes(), key.spec_bytes())),
        None => None,
    }
}

/// Replaces the managed block of `text` by the block for `block`'s host and
/// key, or, given none, removes it.
pub fn apply(text: &[u8], block: Option<(&str, &str)>) -> (r: Vec<u8>)
    ensures
        r@ == spliced(text@, entry_bytes(block)),
{
    let rest = strip_managed_block(text);
    match block {
        Some((host, key)) => {
            let mut r = render_block(host, key);
            push_all(&mut r, rest.as_slice());
            r
        },
        None => rest,
    }
}


/// No line of `ls` holds a newline byte.
pub open spec fn single_lines(ls: Seq<Seq<u8>>) -> bool {
    forall|j: int| 0 <= j < ls.len() ==> !(#[trigger] ls[j]).contains(NEWLINE)
}

/// No line of `ls` opens or closes a block.
pub open spec fn plain_lines(ls: Seq<Seq<u8>>) -> bool {
    forall|j: int|
        0 <= j < ls.len() ==> !opens_block(#[trigger] ls[j]) && !closes_block(ls[j])
}

proof fn lemma_lines_single(text: Seq<u8>, cur: Seq<u8>)
    requires
        !cur.contains(NEWLINE),
    ensures
        single_lines(lines_from(text, cur)),
    decreases text.len(),
{
    if text.len() == 0 {
    } else if text[0] == NEWLINE {
        lemma_lines_single(text.drop_first(), Seq::empty());
        let tail = lines_from(text.drop_first(), Seq::empty());
        assert forall|j: int| 0 <= j < (seq![cur] + tail).len() implies !(#[trigger] (seq![cur]
            + tail)[j]).contains(NEWLINE) by {
            if j > 0 {
                assert((seq![cur] + tail)[j] == tail[j - 1]);
            }
        }
    } else {
        let next = cur.push(text[0]);
        assert forall|m: int| 0 <= m < next.len() implies next[m] != NEWLINE by {
            if m < cur.len() {
                assert(next[m] == cur[m]);
            }
        }
        lemma_lines_single(text.drop_first(), next);
    }
}

proof fn lemma_outside_plain(ls: Seq<Seq<u8>>, inside: bool)
    requires
        single_lines(ls),
    ensures
        single_lines(outside_lines(ls, inside)),
        plain_lines(outside_lines(ls, inside)),
    decreases ls.len(),
{
    if ls.len() > 0 {
        let tail = ls.drop_first();
        assert forall|j: int| 0 <= j < tail.len() implies !(#[trigger] tail[j]).contains(
            NEWLINE,
        ) by {
            assert(tail[j] == ls[j + 1]);
        }
        lemma_outside_plain(tail, next_inside(ls[0], inside));
        let o = outside_lines(tail, next_inside(ls[0], inside));
        if kept(ls[0], inside) {
            let all = seq![ls[0]] + o;
            assert forall|j: int| 0 <= j < all.len() implies !(#[trigger] all[j]).contains(
                NEWLINE,
            ) && !opens_block(all[j]) && !closes_block(all[j]) by {
                if j > 0 {
                    assert(all[j] == o[j - 1]);
                }
            }
        }
    }
}

proof fn lemma_outside_of_plain(ls: Seq<Seq<u8>>)
    requires
        plain_lines(ls),
    ensures
        outside_lines(ls, false) == ls,
    decreases ls.len(),
{
    if ls.len() > 0 {
        let tail = ls.drop_first();
        assert forall|j: int| 0 <= j < tail.len() implies !opens_block(#[trigger] tail[j])
            && !closes_block(tail[j]) by {
            assert(tail[j] == ls[j + 1]);
        }
        lemma_outside_of_plain(tail);
        assert(seq![ls[0]] + tail =~= ls);
    }
}

proof fn lemma_lines_after_line(line: Seq<u8>, rest: Seq<u8>, cur: Seq<u8>)
    requires
        !line.contains(NEWLINE),
    ensures
        lines_from(line + seq![NEWLINE] + rest, cur) == seq![cur + line] + lines_from(
            rest,
            Seq::empty(),
        ),
    decreases line.len(),
{
    let text = line + seq![NEWLINE] + rest;
    if line.len() == 0 {
        assert(text =~= seq![NEWLINE] + rest);
        assert(text.drop_first() =~= rest);
        assert(cur + line =~= cur);
    } else {
        assert(text[0] == line[0]);
        let shorter = line.drop_first();
        assert forall|m: int| 0 <= m < shorter.len() implies shorter[m] != NEWLINE by {
            assert(shorter[m] == line[m + 1]);
        }
        assert(text.drop_first() =~= shorter + seq![NEWLINE] + rest);
        lemma_lines_after_line(shorter, rest, cur.push(line[0]));
        assert(cur.push(line[0]) + shorter =~= cur + line);
    }
}

proof fn lemma_lines_of_joined(ls: Seq<Seq<u8>>, rest: Seq<u8>)
    requires
        single_lines(ls),
    ensures
        lines(join_lines(ls) + rest) == ls + lines(rest),
    decreases ls.len(),
{
    if ls.len() == 0 {
        assert(join_lines(ls) + rest =~= rest);
        assert(ls + lines(rest) =~= lines(rest));
    } else {
        let tail = ls.drop_first();
        assert forall|j: int| 0 <= j < tail.len() implies !(#[trigger] tail[j]).contains(
            NEWLINE,
        ) by {
            assert(tail[j] == ls[j + 1]);
        }
        lemma_lines_of_joined(tail, rest);
        assert(join_lines(ls) + rest =~= ls[0] + seq![NEWLINE] + (join_lines(tail) + rest));
        lemma_lines_after_line(ls[0], join_lines(tail) + rest, Seq::empty());
        assert(Seq::<u8>::empty() + ls[0] =~= ls[0]);
        assert(seq![ls[0]] + (tail + lines(rest)) =~= ls + lines(rest));
    }
}

proof fn lemma_skip_inside(ls: Seq<Seq<u8>>, rest: Seq<Seq<u8>>)
    requires
        forall|j: int| 0 <= j < ls.len() ==> !closes_block(#[trigger] ls[j]),
    ensures
        outside_lines(ls + rest, true) == outside_lines(rest, true),
    decreases ls.len(),
{
    if ls.len() == 0 {
        assert(ls + rest =~= rest);
    } else {
        let tail = ls.drop_first();
        assert forall|j: int| 0 <= j < tail.len() implies !closes_block(#[trigger] tail[j]) by {
            assert(tail[j] == ls[j + 1]);
        }
        lemma_skip_inside(tail, rest);
        assert((ls + rest).drop_first() =~= tail + rest);
        assert((ls + rest)[0] == ls[0]);
    }
}

proof fn lemma_field_line(prefix: Seq<u8>, field: Seq<u8>)
    requires
        fits_block(field),
        prefix.len() > 0,
        prefix[0] != 35u8,
        forall|m: int| 0 <= m < prefix.len() ==> prefix[m] != NEWLINE,
    ensures
        !(prefix + field).contains(NEWLINE),
        !opens_block(prefix + field),
        !closes_block(prefix + field),
{
    let line = prefix + field;
    assert forall|m: int| 0 <= m < line.len() implies line[m] != NEWLINE by {
        if m >= prefix.len() {
            assert(line[m] == field[m - prefix.len()]);
        }
    }
    assert(line[0] != begin_line()[0]);
    assert(line[0] != end_line()[0]);
}

/// The lines of a rendered block: the first opens it, the last closes it and
/// none between opens or closes it.
proof fn lemma_block_shape(host: Seq<u8>, key: Seq<u8>)
    requires
        fits_block(host),
        fits_block(key),
    ensures
        single_lines(block_lines(host, key)),
        opens_block(block_lines(host, key)[0]),
        !closes_block(block_lines(host, key)[1]),
        !closes_block(block_lines(host, key)[2]),
        !closes_block(block_lines(host, key)[3]),
        !opens_block(block_lines(host, key)[4]),
        closes_block(block_lines(host, key)[4]),
{
    let ls = block_lines(host, key);
    lemma_field_line(host_prefix(), host);
    lemma_field_line(hostname_prefix(), host);
    lemma_field_line(identity_prefix(), key);
    assert(end_line().len() != begin_line().len());
    assert forall|m: int| 0 <= m < begin_line().len() implies begin_line()[m] != NEWLINE by {}
    assert forall|m: int| 0 <= m < end_line().len() implies end_line()[m] != NEWLINE by {}
    assert forall|j: int| 0 <= j < ls.len() implies !(#[trigger] ls[j]).contains(NEWLINE) by {}
}

/// What stripping leaves of a block followed by lines that hold no block.
proof fn lemma_strip_block_then(host: Seq<u8>, key: Seq<u8>, rest: Seq<Seq<u8>>)
    requires
        fits_block(host),
        fits_block(key),
    ensures
        outside_lines(block_lines(host, key) + rest, false) == outside_lines(rest, false),
{
    let ls = block_lines(host, key);
    lemma_block_shape(host, key);
    let all = ls + rest;
    let middle = ls.subrange(1, 4);
    let last = seq![ls[4]] + rest;
    assert(all.drop_first() =~= middle + last);
    assert(all[0] == ls[0]);
    assert forall|j: int| 0 <= j < middle.len() implies !closes_block(#[trigger] middle[j]) by {
        assert(middle[j] == ls[j + 1]);
    }
    lemma_skip_inside(middle, last);
    assert(last.drop_first() =~= rest);
    assert(last[0] == ls[4]);
}

/// Stripping a text twice leaves what stripping once does.
pub proof fn lemma_strip_twice(text: Seq<u8>)
    ensures
        stripped(stripped(text)) == stripped(text),
{
    let kept_lines = outside_lines(lines(text), false);
    lemma_lines_single(text, Seq::empty());
    lemma_outside_plain(lines(text), false);
    lemma_lines_of_joined(kept_lines, Seq::empty());
    assert(join_lines(kept_lines) + Seq::<u8>::empty() =~= join_lines(kept_lines));
    assert(kept_lines + lines(Seq::<u8>::empty()) =~= kept_lines);
    lemma_outside_of_plain(kept_lines);
}

/// Removing the blocks of a spliced text gives what removing them from the
/// text did: a splice changes nothing outside its own block.
pub proof fn lemma_strip_after_splice(text: Seq<u8>, entry: Option<(Seq<u8>, Seq<u8>)>)
    requires
        entry matches Some((host, key)) ==> fits_block(host) && fits_block(key),
    ensures
        stripped(spliced(text, entry)) == stripped(text),
{
    lemma_strip_twice(text);
    if let Some((host, key)) = entry {
        let kept_lines = outside_lines(lines(text), false);
        lemma_lines_single(text, Seq::empty());
        lemma_outside_plain(lines(text), false);
        lemma_block_shape(host, key);
        lemma_lines_of_joined(kept_lines, Seq::empty());
        assert(join_lines(kept_lines) + Seq::<u8>::empty() =~= join_lines(kept_lines));
        assert(kept_lines + lines(Seq::<u8>::empty()) =~= kept_lines);
        lemma_lines_of_joined(block_lines(host, key), stripped(text));
        lemma_strip_block_then(host, key, kept_lines);
        lemma_outside_of_plain(kept_lines);
    }
}

/// Splicing the same entry twice gives the text that splicing it once does.
pub proof fn lemma_splice_idempotent(text: Seq<u8>, entry: Option<(Seq<u8>, Seq<u8>)>)
    requires
        entry matches Some((host, key)) ==> fits_block(host) && fits_block(key),
    ensures
        spliced(spliced(text, entry), entry) == spliced(text, entry),
{
    lemma_strip_after_splice(text, entry);
}


/// The text after splicing each entry of `entries` in turn, first to last.
pub open spec fn splice_all(text: Seq<u8>, entries: Seq<Option<(Seq<u8>, Seq<u8>)>>) -> Seq<u8>
    decreases entries.len(),
{
    if entries.len() == 0 {
        text
    } else {
        spliced(splice_all(text, entries.drop_last()), entries.last())
    }
}

/// Whatever run of splices and removals is made, what lies outside the managed
/// block stays what it was in the first text, in its order.
pub proof fn lemma_outside_preserved(text: Seq<u8>, entries: Seq<Option<(Seq<u8>, Seq<u8>)>>)
    requires
        forall|j: int|
            0 <= j < entries.len() ==> (#[trigger] entries[j] matches Some((host, key))
                ==> fits_block(host) && fits_block(key)),
    ensures
        stripped(splice_all(text, entries)) == stripped(text),
    decreases entries.len(),
{
    if entries.len() > 0 {
        let before = entries.drop_last();
        assert forall|j: int| 0 <= j < before.len() implies (#[trigger] before[j] matches Some(
            (host, key),
        ) ==> fits_block(host) && fits_block(key)) by {
            assert(before[j] == entries[j]);
        }
        lemma_outside_preserved(text, before);
        let e = entries[entries.len() - 1];
        assert(e == entries.last());
        lemma_strip_after_splice(splice_all(text, before), e);
    }
}

proof fn lemma_join_lines_from(text: Seq<u8>, cur: Seq<u8>)
    requires
        (text.len() == 0 && cur.len() == 0) || (text.len() > 0 && text.last() == NEWLINE),
    ensures
        join_lines(lines_from(text, cur)) == cur + text,
    decreases text.len(),
{
    if text.len() == 0 {
        assert(cur + text =~= Seq::<u8>::empty());
    } else {
        let rest = text.drop_first();
        if rest.len() > 0 {
            assert(rest.last() == text.last());
        }
        if text[0] == NEWLINE {
            lemma_join_lines_from(rest, Seq::empty());
            lemma_join_cons(cur, lines_from(rest, Seq::empty()));
            assert(cur + seq![NEWLINE] + (Seq::<u8>::empty() + rest) =~= cur + text);
        } else {
            lemma_join_lines_from(rest, cur.push(text[0]));
            assert(cur.push(text[0]) + rest =~= cur + text);
        }
    }
}

/// A text in which no line opens or closes a block, and which is empty or
/// ends in a newline, is left byte for byte as it was by stripping, and so by
/// every splice.
pub proof fn lemma_plain_text_kept(text: Seq<u8>)
    requires
        plain_lines(lines(text)),
        text.len() == 0 || text.last() == NEWLINE,
    ensures
        stripped(text) == text,
{
    lemma_outside_of_plain(lines(text));
    lemma_join_lines_from(text, Seq::empty());
    assert(Seq::<u8>::empty() + text =~= text);
}

} // verus!
