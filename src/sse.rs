use vstd::prelude::*;
use vstd::slice::slice_subrange;
use crate::text::{chars_of, string_of};

verus! {

/// Whether `c` is white space in the sense of `char::is_whitespace`
/// (the Unicode `White_Space` property).
pub open spec fn is_space(c: char) -> bool {
    let u = c as u32;
    (0x9 <= u && u <= 0xD) || u == 0x20 || u == 0x85 || u == 0xA0 || u == 0x1680 || (0x2000 <= u
        && u <= 0x200A) || u == 0x2028 || u == 0x2029 || u == 0x202F || u == 0x205F || u == 0x3000
}

pub open spec fn trim_start(s: Seq<char>) -> Seq<char>
    decreases s.len(),
{
    if s.len() > 0 && is_space(s[0]) {
        trim_start(s.drop_first())
    } else {
        s
    }
}

pub open spec fn trim_end(s: Seq<char>) -> Seq<char>
    decreases s.len(),
{
    if s.len() > 0 && is_space(s.last()) {
        trim_end(s.drop_last())
    } else {
        s
    }
}

/// `s` without leading and trailing white space.
pub open spec fn trim(s: Seq<char>) -> Seq<char> {
    trim_end(trim_start(s))
}

pub open spec fn has_prefix(s: Seq<char>, p: Seq<char>) -> bool {
    p.len() <= s.len() && s.subrange(0, p.len() as int) == p
}

/// `s` after its first `n` characters.
pub open spec fn after(s: Seq<char>, n: nat) -> Seq<char> {
    s.subrange(n as int, s.len() as int)
}

/// One event of a homeserver's event stream, as text.
pub ghost struct SseModel {
    pub event_type: Seq<char>,
    pub uri: Seq<char>,
    pub cursor: Seq<char>,
}

pub open spec fn empty_model() -> SseModel {
    SseModel { event_type: Seq::empty(), uri: Seq::empty(), cursor: Seq::empty() }
}

/// The event blocks read so far and the block being read.
pub ghost struct BlockState {
    pub events: Seq<SseModel>,
    pub current: SseModel,
}

/// What one line of the stream does to the blocks read so far.
pub open spec fn apply_line(st: BlockState, line: Seq<char>) -> BlockState {
    if has_prefix(line, "event: "@) {
        BlockState {
            current: SseModel { event_type: trim(after(line, "event: "@.len())), ..st.current },
            ..st
        }
    } else if has_prefix(line, "data: "@) {
        let d = trim(after(line, "data: "@.len()));
        if has_prefix(d, "cursor: "@) {
            BlockState { current: SseModel { cursor: after(d, "cursor: "@.len()), ..st.current }, ..st }
        } else if has_prefix(d, "content_hash:"@) {
            st
        } else if has_prefix(d, "pubky://"@) {
            BlockState { current: SseModel { uri: d, ..st.current }, ..st }
        } else {
            st
        }
    } else if line.len() == 0 && st.current.event_type.len() > 0 {
        BlockState { events: st.events.push(st.current), current: empty_model() }
    } else {
        st
    }
}

/// A line ended by a line feed loses one carriage return before it.
pub open spec fn strip_cr(line: Seq<char>) -> Seq<char> {
    if line.len() > 0 && line.last() == '\r' {
        line.drop_last()
    } else {
        line
    }
}

/// The blocks after reading `t`, and the characters of the unfinished line.
pub open spec fn scan(t: Seq<char>) -> (BlockState, Seq<char>)
    decreases t.len(),
{
    if t.len() == 0 {
        (BlockState { events: Seq::empty(), current: empty_model() }, Seq::empty())
    } else {
        let (st, line) = scan(t.drop_last());
        if t.last() == '\n' {
            (apply_line(st, strip_cr(line)), Seq::empty())
        } else {
            (st, line.push(t.last()))
        }
    }
}

/// The events of a whole response: a last line without a line feed still
/// counts, and a last block without a blank line counts when it has a type
/// and a URI.
pub open spec fn sse_events_of(t: Seq<char>) -> Seq<SseModel> {
    let (st0, line) = scan(t);
    let st = if line.len() > 0 {
        apply_line(st0, line)
    } else {
        st0
    };
    if st.current.event_type.len() > 0 && st.current.uri.len() > 0 {
        st.events.push(st.current)
    } else {
        st.events
    }
}

/// One event block of a homeserver's event stream.
#[derive(Debug, Clone, PartialEq, Eq)]
pub struct SseEventParsed {
    pub event_type: String,
    pub uri: String,
    pub cursor: String,
}

impl View for SseEventParsed {
    type V = SseModel;

    open spec fn view(&self) -> SseModel {
        SseModel { event_type: self.event_type@, uri: self.uri@, cursor: self.cursor@ }
    }
}

pub open spec fn events_view(v: Seq<SseEventParsed>) -> Seq<SseModel> {
    v.map_values(|e: SseEventParsed| e@)
}

fn is_space_char(c: char) -> (r: bool)
    ensures
        r == is_space(c),
{
    let u: u32 = c as u32;
    (0x9 <= u && u <= 0xD) || u == 0x20 || u == 0x85 || u == 0xA0 || u == 0x1680 || (0x2000 <= u
        && u <= 0x200A) || u == 0x2028 || u == 0x2029 || u == 0x202F || u == 0x205F || u == 0x3000
}

/// The bounds of `t[start..end]` without leading and trailing white space.
fn trim_range(t: &Vec<char>, start: usize, end: usize) -> (r: (usize, usize))
    requires
        start <= end <= t@.len(),
    ensures
        start <= r.0 <= r.1 <= end,
        t@.subrange(r.0 as int, r.1 as int) == trim(t@.subrange(start as int, end as int)),
{
    let mut a: usize = start;
    while a < end && is_space_char(t[a])
        invariant
            start <= a <= end <= t@.len(),
            trim_start(t@.subrange(start as int, end as int)) == trim_start(
                t@.subrange(a as int, end as int),
            ),
        decreases end - a,
    {
        assert(t@.subrange(a as int, end as int).drop_first() =~= t@.subrange(
            a as int + 1,
            end as int,
        ));
        a = a + 1;
    }
    let mut b: usize = end;
    while b > a && is_space_char(t[b - 1])
        invariant
            start <= a <= b <= end <= t@.len(),
            trim_end(t@.subrange(a as int, end as int)) == trim_end(t@.subrange(a as int, b as int)),
        decreases b - a,
    {
        assert(t@.subrange(a as int, b as int).drop_last() =~= t@.subrange(
            a as int,
            b as int - 1,
        ));
        b = b - 1;
    }
    (a, b)
}

/// Whether `t[start..end]` begins with `lit`.
pub(crate) fn starts_with_at(t: &Vec<char>, start: usize, end: usize, lit: &str) -> (r: bool)
    requires
        start <= end <= t@.len(),
    ensures
        r == has_prefix(t@.subrange(start as int, end as int), lit@),
{
    let n = lit.unicode_len();
    if n > end - start {
        return false;
    }
    let mut k: usize = 0;
    while k < n
        invariant
            n == lit@.len(),
            k <= n <= end - start,
            start <= end <= t@.len(),
            forall|j: int| 0 <= j < k ==> t@[start + j] == lit@[j],
        decreases n - k,
    {
        if t[start + k] != lit.get_char(k) {
            assert(t@.subrange(start as int, end as int).subrange(0, n as int)[k as int]
                != lit@[k as int]);
            return false;
        }
        k = k + 1;
    }
    assert(t@.subrange(start as int, end as int).subrange(0, n as int) =~= lit@);
    true
}

} // verus!

verus! {

/// The block being read, as ranges of the response's characters.
struct Block {
    type_range: (usize, usize),
    uri_range: (usize, usize),
    cursor_range: (usize, usize),
}

spec fn range_ok(t: Seq<char>, r: (usize, usize)) -> bool {
    r.0 <= r.1 <= t.len()
}

spec fn block_ok(t: Seq<char>, b: Block) -> bool {
    range_ok(t, b.type_range) && range_ok(t, b.uri_range) && range_ok(t, b.cursor_range)
}

spec fn range_text(t: Seq<char>, r: (usize, usize)) -> Seq<char> {
    t.subrange(r.0 as int, r.1 as int)
}

spec fn block_model(t: Seq<char>, b: Block) -> SseModel {
    SseModel {
        event_type: range_text(t, b.type_range),
        uri: range_text(t, b.uri_range),
        cursor: range_text(t, b.cursor_range),
    }
}

spec fn state_of(t: Seq<char>, events: Seq<SseEventParsed>, b: Block) -> BlockState {
    BlockState { events: events_view(events), current: block_model(t, b) }
}

fn empty_block() -> (b: Block)
    ensures
        b.type_range == (0usize, 0usize),
        b.uri_range == (0usize, 0usize),
        b.cursor_range == (0usize, 0usize),
{
    Block { type_range: (0, 0), uri_range: (0, 0), cursor_range: (0, 0) }
}

proof fn lemma_empty_block(t: Seq<char>, b: Block)
    requires
        b.type_range == (0usize, 0usize),
        b.uri_range == (0usize, 0usize),
        b.cursor_range == (0usize, 0usize),
    ensures
        block_ok(t, b),
        block_model(t, b) == empty_model(),
{
    assert(t.subrange(0, 0) =~= Seq::<char>::empty());
}

fn text_of(t: &Vec<char>, r: (usize, usize)) -> (s: String)
    requires
        range_ok(t@, r),
    ensures
        s@ == range_text(t@, r),
{
    string_of(slice_subrange(t.as_slice(), r.0, r.1))
}

fn emit(t: &Vec<char>, b: &Block, events: &mut Vec<SseEventParsed>)
    requires
        block_ok(t@, *b),
    ensures
        events_view(final(events)@) == events_view(old(events)@).push(block_model(t@, *b)),
{
    let e = SseEventParsed {
        event_type: text_of(t, b.type_range),
        uri: text_of(t, b.uri_range),
        cursor: text_of(t, b.cursor_range),
    };
    events.push(e);
    assert(events_view(final(events)@) =~= events_view(old(events)@).push(block_model(t@, *b)));
}

/// Applies the line `t[ls..le]` to the blocks read so far.
fn apply_line_at(
    t: &Vec<char>,
    ls: usize,
    le: usize,
    events: &mut Vec<SseEventParsed>,
    cur: &mut Block,
)
    requires
        ls <= le <= t@.len(),
        block_ok(t@, *old(cur)),
    ensures
        block_ok(t@, *final(cur)),
        state_of(t@, final(events)@, *final(cur)) == apply_line(
            state_of(t@, old(events)@, *old(cur)),
            t@.subrange(ls as int, le as int),
        ),
{
    let ghost line = t@.subrange(ls as int, le as int);
    if starts_with_at(t, ls, le, "event: ") {
        let n = "event: ".unicode_len();
        assert(after(line, n as nat) =~= t@.subrange(ls + n, le as int));
        let r = trim_range(t, ls + n, le);
        cur.type_range = r;
    } else if starts_with_at(t, ls, le, "data: ") {
        let n = "data: ".unicode_len();
        assert(after(line, n as nat) =~= t@.subrange(ls + n, le as int));
        let (a, b) = trim_range(t, ls + n, le);
        let ghost d = t@.subrange(a as int, b as int);
        if starts_with_at(t, a, b, "cursor: ") {
            let m = "cursor: ".unicode_len();
            assert(after(d, m as nat) =~= t@.subrange(a + m, b as int));
            cur.cursor_range = (a + m, b);
        } else if starts_with_at(t, a, b, "content_hash:") {
        } else if starts_with_at(t, a, b, "pubky://") {
            cur.uri_range = (a, b);
        }
    } else if ls == le && cur.type_range.0 < cur.type_range.1 {
        emit(t, cur, events);
        *cur = empty_block();
        proof {
            lemma_empty_block(t@, *cur);
        }
    }
}

/// Splits an event-stream response into its event blocks.
pub fn parse_sse_response(text: &str) -> (r: Vec<SseEventParsed>)
    ensures
        events_view(r@) == sse_events_of(text@),
{
    let t = chars_of(text);
    let mut events: Vec<SseEventParsed> = Vec::new();
    let mut cur = empty_block();
    proof {
        lemma_empty_block(t@, cur);
        assert(events_view(events@) =~= Seq::<SseModel>::empty());
    }
    let mut line_start: usize = 0;
    let mut i: usize = 0;
    while i < t.len()
        invariant
            t@ == text@,
            line_start <= i <= t@.len(),
            block_ok(t@, cur),
            scan(t@.subrange(0, i as int)) == (
                state_of(t@, events@, cur),
                t@.subrange(line_start as int, i as int),
            ),
        decreases t.len() - i,
    {
        let ghost pre = t@.subrange(0, i as int + 1);
        assert(pre.drop_last() =~= t@.subrange(0, i as int));
        assert(pre.last() == t@[i as int]);
        if t[i] == '\n' {
            let mut le = i;
            if line_start < i && t[i - 1] == '\r' {
                le = i - 1;
            }
            assert(strip_cr(t@.subrange(line_start as int, i as int)) =~= t@.subrange(
                line_start as int,
                le as int,
            ));
            apply_line_at(&t, line_start, le, &mut events, &mut cur);
            line_start = i + 1;
            assert(t@.subrange(line_start as int, i as int + 1) =~= Seq::<char>::empty());
        } else {
            assert(t@.subrange(line_start as int, i as int).push(t@[i as int]) =~= t@.subrange(
                line_start as int,
                i as int + 1,
            ));
        }
        i = i + 1;
    }
    assert(t@.subrange(0, t@.len() as int) =~= t@);
    if line_start < t.len() {
        apply_line_at(&t, line_start, t.len(), &mut events, &mut cur);
    }
    if cur.type_range.0 < cur.type_range.1 && cur.uri_range.0 < cur.uri_range.1 {
        emit(&t, &cur, &mut events);
    }
    events
}

} // verus!

verus! {

/// Position of the first `/` in `s`.
pub open spec fn first_slash(s: Seq<char>) -> Option<int>
    decreases s.len(),
{
    if s.len() == 0 {
        None
    } else if s[0] == '/' {
        Some(0)
    } else {
        match first_slash(s.drop_first()) {
            Some(k) => Some(k + 1),
            None => None,
        }
    }
}

/// The author key and the pixel ID of `pubky://<user_pk>/pub/pubky-canva/pixels/<id>`,
/// with a non-empty ID; `None` for every other URI.
pub open spec fn pixel_uri_parts(u: Seq<char>) -> Option<(Seq<char>, Seq<char>)> {
    if !has_prefix(u, "pubky://"@) {
        None
    } else {
        let rest = after(u, "pubky://"@.len());
        match first_slash(rest) {
            None => None,
            Some(k) => {
                let path = after(rest, (k + 1) as nat);
                if has_prefix(path, "pub/pubky-canva/pixels/"@) && path.len()
                    > "pub/pubky-canva/pixels/"@.len() {
                    Some((rest.subrange(0, k), after(path, "pub/pubky-canva/pixels/"@.len())))
                } else {
                    None
                }
            },
        }
    }
}

/// Extracts `(user_pk, pixel_id)` from a pixel URI.
pub fn parse_pixel_uri(uri: &str) -> (r: Option<(&str, &str)>)
    ensures
        match r {
            None => pixel_uri_parts(uri@) is None,
            Some((user, id)) => pixel_uri_parts(uri@) == Some((user@, id@)),
        },
{
    let t = chars_of(uri);
    if !starts_with_at(&t, 0, t.len(), "pubky://") {
        assert(t@.subrange(0, t@.len() as int) =~= uri@);
        return None;
    }
    assert(t@.subrange(0, t@.len() as int) =~= uri@);
    let p = "pubky://".unicode_len();
    let ghost rest = after(uri@, p as nat);
    let mut k: usize = p;
    while k < t.len() && t[k] != '/'
        invariant
            t@ == uri@,
            p <= k <= t@.len(),
            p == "pubky://"@.len(),
            rest == after(uri@, p as nat),
            first_slash(rest) == match first_slash(t@.subrange(k as int, t@.len() as int)) {
                Some(j) => Some(j + (k - p)),
                None => None::<int>,
            },
        decreases t.len() - k,
    {
        assert(t@.subrange(k as int, t@.len() as int).drop_first() =~= t@.subrange(
            k as int + 1,
            t@.len() as int,
        ));
        k = k + 1;
    }
    if k == t.len() {
        assert(t@.subrange(k as int, t@.len() as int) =~= Seq::<char>::empty());
        return None;
    }
    assert(first_slash(rest) == Some((k - p) as int));
    assert(after(rest, (k - p + 1) as nat) =~= t@.subrange(k + 1, t@.len() as int));
    assert(rest.subrange(0, (k - p) as int) =~= t@.subrange(p as int, k as int));
    if !starts_with_at(&t, k + 1, t.len(), "pub/pubky-canva/pixels/") {
        return None;
    }
    let q = "pub/pubky-canva/pixels/".unicode_len();
    if k + 1 + q >= t.len() {
        return None;
    }
    assert(after(t@.subrange(k + 1, t@.len() as int), q as nat) =~= t@.subrange(
        k + 1 + q,
        t@.len() as int,
    ));
    let user = uri.substring_char(p, k);
    let id = uri.substring_char(k + 1 + q, t.len());
    Some((user, id))
}

} // verus!
