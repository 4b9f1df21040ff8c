//! The Spectrum keyboard: high-level commands over a transport, and the parts
//! of device discovery that read descriptors and uevent files.
//!
//! A transport may keep the log of its exchanges (what was written, what each
//! read gave, the pauses). On such a transport each command's contract says
//! which exchanges it adds to the log and what it returns for the replies
//! found there; of a transport that keeps no log nothing is claimed.

use vstd::prelude::*;
use vstd::string::StringSliceAdditionalSpecFns;
use super::protocol::{self as p, Effect, EffectModel, Packet, Rgb};
use super::protocol::codec::{
    decode_spec, description_len, encode_spec, key_page_entry, state_entries, state_entry_count,
};
use super::protocol::layers::compress_spec;
use super::protocol::{models, request_spec, REPORT_ID, REPORT_LEN};

verus! {

pub const VID: u16 = 0x048D;


/// Pauses before reading the answer on successive tries of a request, ms.
pub const QUERY_WAITS: [u64; 5] = [20, 60, 100, 150, 250];

/// `std::io::Error`, an error of the hidraw device, carried opaque inside
/// [`Error::Io`]; nothing is read from it but its text.
#[verifier::external_type_specification]
#[verifier::external_body]
pub struct ExIoError(std::io::Error);

#[derive(Debug)]
pub enum Error {
    NotFound,
    /// No access to `/dev/hidrawN` (a udev rule is needed).
    Permission(String),
    Io(std::io::Error),
    /// The controller answered another request or does not speak the protocol.
    Protocol(String),
}

/// `std::io::Error`'s `Display` text (`ToString::to_string`), as the
/// operating system words it. The contract claims nothing of the text: it
/// depends on the error's origin and the system.
#[verifier::external_body]
fn io_error_text(e: &std::io::Error) -> String {
    e.to_string()
}

impl Error {
    /// The message shown to the user.
    pub fn message(&self) -> (s: String)
        ensures
            self is NotFound ==> s@ == "контроллер подсветки Spectrum не найден"@,
            self matches Error::Permission(p) ==> s@ == "нет доступа к "@ + p@
                + " — установите udev-правило"@,
            self matches Error::Protocol(m) ==> s@ == m@,
            self is Io ==> "ошибка ввода-вывода: "@.is_prefix_of(s@),
    {
        match self {
            Error::NotFound => String::from_str("контроллер подсветки Spectrum не найден"),
            Error::Permission(path) => {
                let mut s = String::from_str("нет доступа к ");
                s.append(path.as_str());
                s.append(" — установите udev-правило");
                s
            },
            Error::Io(e) => {
                let mut s = String::from_str("ошибка ввода-вывода: ");
                let ghost head = s@;
                s.append(io_error_text(e).as_str());
                assert(head =~= s@.subrange(0, head.len() as int));
                s
            },
            Error::Protocol(m) => m.clone(),
        }
    }
}

pub type Result<T> = core::result::Result<T, Error>;

/// One exchange with the controller, as the transport saw it.
pub enum Exchange {
    /// A packet written, and what the write gave.
    Sent(Seq<u8>, Result<()>),
    /// A read, and the report it gave.
    Read(Result<Seq<u8>>),
    /// A pause of so many milliseconds.
    Paused(u64),
}

/// The view of a read's result: the report's bytes.
pub open spec fn read_view(r: Result<Packet>) -> Result<Seq<u8>> {
    match r {
        Ok(pkt) => Ok(pkt@),
        Err(e) => Err(e),
    }
}

/// The feature-report channel `0x07`. A transport that keeps the log of its
/// exchanges adds each method's exchange to it; the keyboard's contracts speak
/// of transports that keep it. The simulator keeps it and proves so; a
/// transport that does not (the hidraw device, which Verus does not check)
/// keeps the default `keeps_log`, `false`, and nothing is claimed of it.
pub trait Transport: Send {
    /// Whether the transport keeps the log [`Transport::exchanges`], from the
    /// state it started in.
    closed spec fn keeps_log(&self) -> bool {
        false
    }

    /// Every exchange made through the transport so far, oldest first, when
    /// it keeps the log.
    closed spec fn exchanges(&self) -> Seq<Exchange> {
        Seq::empty()
    }

    fn set_feature(&mut self, pkt: &Packet) -> (r: Result<()>)
        ensures
            old(self).keeps_log() ==> final(self).keeps_log() && final(self).exchanges()
                == old(self).exchanges().push(Exchange::Sent(pkt@, r)),
    ;

    fn get_feature(&mut self) -> (r: Result<Packet>)
        ensures
            old(self).keeps_log() ==> final(self).keeps_log() && final(self).exchanges()
                == old(self).exchanges().push(Exchange::Read(read_view(r))),
    ;

    fn name(&self) -> String;

    /// Waits `ms` milliseconds before the answer to a request is read (the
    /// controller needs up to ~50 ms to prepare it).
    fn pause(&mut self, ms: u64)
        ensures
            old(self).keeps_log() ==> final(self).keeps_log() && final(self).exchanges()
                == old(self).exchanges().push(Exchange::Paused(ms)),
    ;
}

/// Zone matrix of the controller.
#[derive(Clone, Debug, Default, PartialEq, Eq)]
pub struct KeyMatrix {
    pub width: usize,
    pub height: usize,
    /// `rows[y][x]`, 0 is empty.
    pub rows: Vec<Vec<u16>>,
    /// Zones outside the matrix (the logo on the lid).
    pub extra: Vec<u16>,
}

/// Concatenation of the rows.
pub open spec fn flat_rows(rows: Seq<Seq<u16>>) -> Seq<u16>
    decreases rows.len(),
{
    if rows.len() == 0 {
        Seq::empty()
    } else {
        flat_rows(rows.drop_last()) + rows.last()
    }
}

/// `acc` with `k` appended when `k` is a zone not yet in it.
pub open spec fn add_code(acc: Seq<u16>, k: u16) -> Seq<u16> {
    if k != 0 && !acc.contains(k) {
        acc.push(k)
    } else {
        acc
    }
}

/// Non-zero codes of `s` without repeats, in first-occurrence order.
pub open spec fn distinct_codes(s: Seq<u16>) -> Seq<u16>
    decreases s.len(),
{
    if s.len() == 0 {
        Seq::empty()
    } else {
        add_code(distinct_codes(s.drop_last()), s.last())
    }
}

pub open spec fn rows_view(rows: Seq<Vec<u16>>) -> Seq<Seq<u16>> {
    Seq::new(rows.len(), |i: int| rows[i]@)
}

impl KeyMatrix {
    /// All zone codes of the matrix, row by row, then the extra zones.
    pub open spec fn cells(&self) -> Seq<u16> {
        flat_rows(rows_view(self.rows@)) + self.extra@
    }

    fn contains_code(out: &Vec<u16>, k: u16) -> (r: bool)
        ensures
            r == out@.contains(k),
    {
        let mut i: usize = 0;
        while i < out.len()
            invariant
                i <= out@.len(),
                forall|t: int| 0 <= t < i ==> out@[t] != k,
            decreases out@.len() - i,
        {
            if out[i] == k {
                return true;
            }
            i = i + 1;
        }
        false
    }

    fn add_all(out: &mut Vec<u16>, ks: &Vec<u16>)
        ensures
            final(out)@ == {
                let base = old(out)@;
                distinct_codes_from(base, ks@)
            },
    {
        let ghost base = out@;
        let mut i: usize = 0;
        while i < ks.len()
            invariant
                i <= ks@.len(),
                out@ == distinct_codes_from(base, ks@.take(i as int)),
            decreases ks@.len() - i,
        {
            let k = ks[i];
            if k != 0 && !Self::contains_code(out, k) {
                out.push(k);
            }
            assert(ks@.take(i + 1).drop_last() =~= ks@.take(i as int));
            i = i + 1;
        }
        assert(ks@.take(i as int) =~= ks@);
    }

    /// All zone codes without repeats, in traversal order.
    pub fn codes(&self) -> (out: Vec<u16>)
        ensures
            out@ == distinct_codes(self.cells()),
    {
        let mut out: Vec<u16> = Vec::new();
        let mut y: usize = 0;
        while y < self.rows.len()
            invariant
                y <= self.rows@.len(),
                out@ == distinct_codes(flat_rows(rows_view(self.rows@).take(y as int))),
            decreases self.rows@.len() - y,
        {
            proof {
                lemma_distinct_codes_append(
                    flat_rows(rows_view(self.rows@).take(y as int)),
                    self.rows@[y as int]@,
                );
                assert(rows_view(self.rows@).take(y + 1).drop_last() =~= rows_view(self.rows@).take(
                    y as int,
                ));
            }
            Self::add_all(&mut out, &self.rows[y]);
            y = y + 1;
        }
        assert(rows_view(self.rows@).take(y as int) =~= rows_view(self.rows@));
        proof {
            lemma_distinct_codes_append(flat_rows(rows_view(self.rows@)), self.extra@);
        }
        Self::add_all(&mut out, &self.extra);
        out
    }

    /// Position `(x, y)` of the first cell of zone `code`.
    pub fn position(&self, code: u16) -> (r: Option<(usize, usize)>)
        ensures
            r == match first_position(rows_view(self.rows@), code, 0) {
                Some((x, y)) => Some((x as usize, y as usize)),
                None => None,
            },
            r is None <==> forall|y: int| 0 <= y < self.rows@.len() ==> !self.rows@[y]@.contains(
                code,
            ),
            r matches Some((x, y)) ==> {
                &&& y < self.rows@.len()
                &&& x < self.rows@[y as int]@.len()
                &&& self.rows@[y as int]@[x as int] == code
                &&& forall|t: int| 0 <= t < y ==> !self.rows@[t]@.contains(code)
                &&& forall|t: int| 0 <= t < x ==> self.rows@[y as int]@[t] != code
            },
    {
        let ghost rows = rows_view(self.rows@);
        let mut y: usize = 0;
        while y < self.rows.len()
            invariant
                y <= self.rows@.len(),
                rows == rows_view(self.rows@),
                first_position(rows, code, 0) == first_position(rows, code, y as int),
                forall|t: int| 0 <= t < y ==> !self.rows@[t]@.contains(code),
            decreases self.rows@.len() - y,
        {
            let row = &self.rows[y];
            let mut x: usize = 0;
            while x < row.len()
                invariant
                    x <= row@.len(),
                    y < self.rows@.len(),
                    row@ == self.rows@[y as int]@,
                    rows == rows_view(self.rows@),
                    first_position(rows, code, 0) == first_position(rows, code, y as int),
                    index_in(row@, code, 0) == index_in(row@, code, x as int),
                    forall|t: int| 0 <= t < y ==> !self.rows@[t]@.contains(code),
                    forall|t: int| 0 <= t < x ==> row@[t] != code,
                decreases row@.len() - x,
            {
                if row[x] == code {
                    assert(self.rows@[y as int]@[x as int] == code);
                    assert(self.rows@[y as int]@.contains(code));
                    assert(rows[y as int] == row@);
                    assert(index_in(row@, code, x as int) == x);
                    assert(first_position(rows, code, y as int) == Some((x as int, y as int)));
                    return Some((x, y));
                }
                x = x + 1;
            }
            assert(rows[y as int] == row@);
            assert(!self.rows@[y as int]@.contains(code));
            y = y + 1;
        }
        None
    }
}

/// Index of the first `code` in `row` at or after `x`, or the row's length.
pub open spec fn index_in(row: Seq<u16>, code: u16, x: int) -> int
    decreases row.len() - x,
{
    if x < 0 || x >= row.len() {
        row.len() as int
    } else if row[x] == code {
        x
    } else {
        index_in(row, code, x + 1)
    }
}

/// The first cell `(x, y)` of zone `code` in rows `y` and below.
pub open spec fn first_position(rows: Seq<Seq<u16>>, code: u16, y: int) -> Option<(int, int)>
    decreases rows.len() - y,
{
    if y < 0 || y >= rows.len() {
        None
    } else if index_in(rows[y], code, 0) < rows[y].len() {
        Some((index_in(rows[y], code, 0), y))
    } else {
        first_position(rows, code, y + 1)
    }
}

/// `distinct_codes` continued from `base` over `s`.
pub open spec fn distinct_codes_from(base: Seq<u16>, s: Seq<u16>) -> Seq<u16>
    decreases s.len(),
{
    if s.len() == 0 {
        base
    } else {
        add_code(distinct_codes_from(base, s.drop_last()), s.last())
    }
}

proof fn lemma_distinct_codes_append(a: Seq<u16>, b: Seq<u16>)
    ensures
        distinct_codes(a + b) == distinct_codes_from(distinct_codes(a), b),
    decreases b.len(),
{
    if b.len() == 0 {
        assert(a + b =~= a);
    } else {
        lemma_distinct_codes_append(a, b.drop_last());
        assert((a + b).drop_last() =~= a + b.drop_last());
    }
}

/// A report accepted as the answer to request `op`: its second byte is `op`
/// and bytes 4 and 5 hold the expected values, where some are expected.
pub open spec fn accepts(op: u8, b4: Option<u8>, b5: Option<u8>, r: Seq<u8>) -> bool {
    &&& r[1] == op
    &&& (b4 matches Some(v) ==> r[4] == v)
    &&& (b5 matches Some(v) ==> r[5] == v)
}

/// The zone codes of a page, empty cells left out.
pub open spec fn nonzero(s: Seq<u16>) -> Seq<u16> {
    s.filter(|k: u16| k != 0)
}

/// How a keyboard command ends, as a value of the specification.
pub enum Outcome<A> {
    /// It gives this value.
    Done(A),
    /// The transport failed with this error, which the command hands back.
    Failed(Error),
    /// The command gives up with [`Error::Protocol`] and this message.
    Refused(Seq<char>),
}

/// `res` is what outcome `out` says, with `view` taking the returned value
/// to the value of the specification.
pub open spec fn yields<A, B>(res: Result<B>, out: Outcome<A>, view: spec_fn(B) -> A) -> bool {
    match out {
        Outcome::Done(a) => res matches Ok(b) && view(b) == a,
        Outcome::Failed(e) => res matches Err(e2) && e2 == e,
        Outcome::Refused(msg) => res matches Err(Error::Protocol(m)) && m@ == msg,
    }
}

/// An outcome `o` after `n` more exchanges.
pub open spec fn shift<A>(o: Option<(Outcome<A>, int)>, n: int) -> Option<(Outcome<A>, int)> {
    match o {
        Some((x, m)) => Some((x, m + n)),
        None => None,
    }
}

/// The message of a request that no try got an accepted answer to.
pub open spec fn unanswered_text(op: u8) -> Seq<char> {
    "контроллер не ответил на запрос 0x"@ + crate::text::hex2_spec(op)
}

/// A request `req` (request byte `op`; an accepted answer holds `b4` and `b5`
/// in bytes 4 and 5 where they are given), from try `k` on, when the
/// transport's side of the exchanges is `ev`: how it ends and how many
/// exchanges it makes. Each try reads away a stale report, writes the
/// request, pauses `QUERY_WAITS[k]` ms and reads the answer; a transport
/// error ends the request at once. `None`: `ev` is not what the request makes.
pub open spec fn query_run(
    ev: Seq<Exchange>,
    req: Seq<u8>,
    op: u8,
    b4: Option<u8>,
    b5: Option<u8>,
    k: int,
) -> Option<(Outcome<Seq<u8>>, int)>
    decreases 5 - k,
{
    if k < 0 || k >= 5 {
        Some((Outcome::Refused(unanswered_text(op)), 0))
    } else if ev.len() < 1 {
        None
    } else {
        match ev[0] {
            Exchange::Read(Err(e)) => Some((Outcome::Failed(e), 1)),
            Exchange::Read(Ok(_)) => {
                if ev.len() < 2 {
                    None
                } else {
                    match ev[1] {
                        Exchange::Sent(pkt, Err(e)) => if pkt == req {
                            Some((Outcome::Failed(e), 2))
                        } else {
                            None
                        },
                        Exchange::Sent(pkt, Ok(_)) => {
                            if pkt != req || ev.len() < 4 || ev[2] != Exchange::Paused(
                                QUERY_WAITS@[k],
                            ) {
                                None
                            } else {
                                match ev[3] {
                                    Exchange::Read(Err(e)) => Some((Outcome::Failed(e), 4)),
                                    Exchange::Read(Ok(r)) => if accepts(op, b4, b5, r) {
                                        Some((Outcome::Done(r), 4))
                                    } else {
                                        shift(query_run(ev.skip(4), req, op, b4, b5, k + 1), 4)
                                    },
                                    _ => None,
                                }
                            }
                        },
                        _ => None,
                    }
                }
            },
            _ => None,
        }
    }
}

/// A run of a request stays what it is when more exchanges follow it.
pub proof fn lemma_query_run_extends(
    ev: Seq<Exchange>,
    more: Seq<Exchange>,
    req: Seq<u8>,
    op: u8,
    b4: Option<u8>,
    b5: Option<u8>,
    k: int,
)
    requires
        query_run(ev, req, op, b4, b5, k) is Some,
    ensures
        query_run(ev + more, req, op, b4, b5, k) == query_run(ev, req, op, b4, b5, k),
    decreases 5 - k,
{
    let all = ev + more;
    if 0 <= k < 5 {
        assert(all[0] == ev[0]);
        if ev.len() >= 2 {
            assert(all[1] == ev[1]);
        }
        if ev.len() >= 4 {
            assert(all[2] == ev[2]);
            assert(all[3] == ev[3]);
            assert(all.skip(4) =~= ev.skip(4) + more);
            if query_run(ev.skip(4), req, op, b4, b5, k + 1) is Some {
                lemma_query_run_extends(ev.skip(4), more, req, op, b4, b5, k + 1);
            }
        }
    }
}

/// The exchanges made since the log was `before`.
pub open spec fn since(after: Seq<Exchange>, before: Seq<Exchange>) -> Seq<Exchange> {
    after.skip(before.len() as int)
}

/// The bytes of a report.
pub open spec fn bytes(r: Packet) -> Seq<u8> {
    r@
}

/// The exchanges `made` are exactly one request (as [`query_run`] says,
/// from the first try) and `res` is what it gives.
pub open spec fn query_made(
    made: Seq<Exchange>,
    req: Seq<u8>,
    op: u8,
    b4: Option<u8>,
    b5: Option<u8>,
    res: Result<Packet>,
) -> bool {
    match query_run(made, req, op, b4, b5, 0) {
        Some((out, n)) => n == made.len() && yields(res, out, |r: Packet| bytes(r)),
        None => false,
    }
}

/// What a simple read request gives: `f` of byte 4 of the answer.
pub open spec fn byte4<B>(o: Outcome<Seq<u8>>, f: spec_fn(u8) -> B) -> Outcome<B> {
    match o {
        Outcome::Done(r) => Outcome::Done(f(r[4])),
        Outcome::Failed(e) => Outcome::Failed(e),
        Outcome::Refused(m) => Outcome::Refused(m),
    }
}

/// A read request `op` with no parameters, as `made` shows it: `res` is `f`
/// of byte 4 of the answer, or the error the request ends in.
pub open spec fn read_made<B>(made: Seq<Exchange>, op: u8, res: Result<B>, f: spec_fn(u8) -> B) -> bool {
    match query_run(made, request_spec(op, seq![]), op, None, None, 0) {
        Some((out, n)) => n == made.len() && yields(res, byte4(out, f), |b: B| b),
        None => false,
    }
}

/// `after` is `before` followed by the exchanges made since.
pub proof fn lemma_since(after: Seq<Exchange>, before: Seq<Exchange>)
    requires
        before.is_prefix_of(after),
    ensures
        after == before + since(after, before),
{
    assert forall|i: int| 0 <= i < before.len() implies after[i] == before[i] by {
        assert(before[i] == after.subrange(0, before.len() as int)[i]);
    }
    assert(after =~= before + since(after, before));
}

/// The zone codes of a `0xC5` answer `r`, `width` columns.
pub open spec fn page_codes(r: Seq<u8>, width: int) -> Seq<u16> {
    Seq::new(width as nat, |x: int| key_page_entry(r, x))
}

/// Row `row` before the rows of `o`, which come `n` exchanges later.
pub open spec fn cons_row(row: Seq<u16>, o: Option<(Outcome<Seq<Seq<u16>>>, int)>, n: int) -> Option<
    (Outcome<Seq<Seq<u16>>>, int),
> {
    match o {
        Some((Outcome::Done(rest), m)) => Some((Outcome::Done(seq![row] + rest), m + n)),
        _ => shift(o, n),
    }
}

/// The rows `prefix` before the rows of `o`, which come `n` exchanges later.
pub open spec fn rows_prefix(
    prefix: Seq<Seq<u16>>,
    o: Option<(Outcome<Seq<Seq<u16>>>, int)>,
    n: int,
) -> Option<(Outcome<Seq<Seq<u16>>>, int)> {
    match o {
        Some((Outcome::Done(rest), m)) => Some((Outcome::Done(prefix + rest), m + n)),
        _ => shift(o, n),
    }
}

proof fn lemma_rows_prefix_step(
    rows: Seq<Seq<u16>>,
    row: Seq<u16>,
    o: Option<(Outcome<Seq<Seq<u16>>>, int)>,
    qn: int,
    dn: int,
)
    ensures
        rows_prefix(rows, cons_row(row, o, qn), dn) == rows_prefix(rows.push(row), o, dn + qn),
{
    if let Some((Outcome::Done(rest), m)) = o {
        assert(rows + (seq![row] + rest) =~= rows.push(row) + rest);
    }
}

/// One more row read: the rows run over `done + q` continues from row `y + 1`.
proof fn lemma_rows_step(
    done: Seq<Exchange>,
    q: Seq<Exchange>,
    rows: Seq<Seq<u16>>,
    r: Seq<u8>,
    w: int,
    h: int,
    y: int,
)
    requires
        0 <= y < h,
        query_run(
            q,
            request_spec(p::op::KEY_PAGE, seq![7u8, y as u8]),
            p::op::KEY_PAGE,
            Some(7u8),
            Some(y as u8),
            0,
        ) == Some((Outcome::Done(r), q.len() as int)),
        forall|rest: Seq<Exchange>|
            #[trigger] rows_run(done + rest, w, h, 0) == rows_prefix(
                rows,
                rows_run(rest, w, h, y),
                done.len() as int,
            ),
    ensures
        forall|rest: Seq<Exchange>|
            #[trigger] rows_run((done + q) + rest, w, h, 0) == rows_prefix(
                rows.push(page_codes(r, w)),
                rows_run(rest, w, h, y + 1),
                (done + q).len() as int,
            ),
{
    let reqy = request_spec(p::op::KEY_PAGE, seq![7u8, y as u8]);
    assert forall|rest: Seq<Exchange>|
        #[trigger] rows_run((done + q) + rest, w, h, 0) == rows_prefix(
            rows.push(page_codes(r, w)),
            rows_run(rest, w, h, y + 1),
            (done + q).len() as int,
        ) by {
        assert((done + q) + rest =~= done + (q + rest));
        lemma_query_run_extends(q, rest, reqy, p::op::KEY_PAGE, Some(7u8), Some(y as u8), 0);
        assert((q + rest).skip(q.len() as int) =~= rest);
        assert(rows_run(done + (q + rest), w, h, 0) == rows_prefix(
            rows,
            rows_run(q + rest, w, h, y),
            done.len() as int,
        ));
        lemma_rows_prefix_step(
            rows,
            page_codes(r, w),
            rows_run(rest, w, h, y + 1),
            q.len() as int,
            done.len() as int,
        );
    }
}

/// A request that ends in an answer ends in an accepted one, after no more
/// exchanges than there are.
pub proof fn lemma_query_run_done(
    ev: Seq<Exchange>,
    req: Seq<u8>,
    op: u8,
    b4: Option<u8>,
    b5: Option<u8>,
    k: int,
)
    ensures
        query_run(ev, req, op, b4, b5, k) matches Some((out, n)) ==> 0 <= n <= ev.len() && (
        out matches Outcome::Done(r) ==> accepts(op, b4, b5, r)),
    decreases 5 - k,
{
    if 0 <= k < 5 && ev.len() >= 4 {
        lemma_query_run_done(ev.skip(4), req, op, b4, b5, k + 1);
    }
}

/// Rows `y` to `height` of the zone matrix, one `0xC5` request each.
pub open spec fn rows_run(ev: Seq<Exchange>, width: int, height: int, y: int) -> Option<
    (Outcome<Seq<Seq<u16>>>, int),
>
    decreases height - y,
{
    if y < 0 || y >= height {
        Some((Outcome::Done(Seq::empty()), 0))
    } else {
        match query_run(
            ev,
            request_spec(p::op::KEY_PAGE, seq![7u8, y as u8]),
            p::op::KEY_PAGE,
            Some(7u8),
            Some(y as u8),
            0,
        ) {
            Some((Outcome::Done(r), n)) => cons_row(
                page_codes(r, width),
                rows_run(ev.skip(n), width, height, y + 1),
                n,
            ),
            Some((Outcome::Failed(e), n)) => Some((Outcome::Failed(e), n)),
            Some((Outcome::Refused(m), n)) => Some((Outcome::Refused(m), n)),
            None => None,
        }
    }
}

/// Width, height, rows and extra zones of a zone matrix.
pub type Shape = (usize, usize, Seq<Seq<u16>>, Seq<u16>);

/// The zone matrix read: the size (`0xC4`), each row, then the zones
/// outside it (`0xC5` page 8).
pub open spec fn matrix_run(ev: Seq<Exchange>) -> Option<(Outcome<Shape>, int)> {
    match query_run(ev, request_spec(p::op::KEY_COUNT, seq![7u8]), p::op::KEY_COUNT, None, None, 0) {
        Some((Outcome::Done(c), n)) => {
            let height = c[5] as usize;
            let width = c[6] as usize;
            match rows_run(ev.skip(n), width as int, height as int, 0) {
                Some((Outcome::Done(rows), n2)) => match query_run(
                    ev.skip(n + n2),
                    request_spec(p::op::KEY_PAGE, seq![8u8, 0u8]),
                    p::op::KEY_PAGE,
                    Some(8u8),
                    None,
                    0,
                ) {
                    Some((Outcome::Done(r), n3)) => Some(
                        (
                            Outcome::Done(
                                (width, height, rows, nonzero(page_codes(r, width as int))),
                            ),
                            n + n2 + n3,
                        ),
                    ),
                    Some((Outcome::Failed(e), n3)) => Some((Outcome::Failed(e), n + n2 + n3)),
                    Some((Outcome::Refused(m), n3)) => Some((Outcome::Refused(m), n + n2 + n3)),
                    None => None,
                },
                Some((Outcome::Failed(e), n2)) => Some((Outcome::Failed(e), n + n2)),
                Some((Outcome::Refused(m), n2)) => Some((Outcome::Refused(m), n + n2)),
                None => None,
            }
        },
        Some((Outcome::Failed(e), n)) => Some((Outcome::Failed(e), n)),
        Some((Outcome::Refused(m), n)) => Some((Outcome::Refused(m), n)),
        None => None,
    }
}

/// The message of a controller that answers the compatibility request with
/// code `code`.
pub open spec fn incompatible_text(code: u8) -> Seq<char> {
    "контроллер несовместим (код "@ + crate::text::decimal_spec(code as nat) + ")"@
}

/// Opening a keyboard: the compatibility request, which must be answered with
/// code 0 in byte 4.
pub open spec fn connect_run(ev: Seq<Exchange>) -> Option<(Outcome<()>, int)> {
    match query_run(
        ev,
        request_spec(p::op::COMPATIBILITY, seq![]),
        p::op::COMPATIBILITY,
        None,
        None,
        0,
    ) {
        Some((Outcome::Done(a), n)) => if a[4] == 0 {
            Some((Outcome::Done(()), n))
        } else {
            Some((Outcome::Refused(incompatible_text(a[4])), n))
        },
        Some((Outcome::Failed(e), n)) => Some((Outcome::Failed(e), n)),
        Some((Outcome::Refused(m), n)) => Some((Outcome::Refused(m), n)),
        None => None,
    }
}

/// The exchanges `made` are exactly the opening of a keyboard, and `res` is
/// how it ends.
pub open spec fn connect_made(made: Seq<Exchange>, res: Result<()>) -> bool {
    match connect_run(made) {
        Some((out, n)) => n == made.len() && yields(res, out, |u: ()| u),
        None => false,
    }
}

impl KeyMatrix {
    /// Width, height, rows and extra zones.
    pub open spec fn shape(&self) -> Shape {
        (self.width, self.height, rows_view(self.rows@), self.extra@)
    }
}

/// The layers an answer to `0xCC` describes; an answer that does not parse
/// is refused.
pub open spec fn layers_of(o: Outcome<Seq<u8>>) -> Outcome<Seq<EffectModel>> {
    match o {
        Outcome::Done(r) => match decode_spec(r) {
            Some((_, es)) => Outcome::Done(es),
            None => Outcome::Refused("не удалось разобрать описание профиля"@),
        },
        Outcome::Failed(e) => Outcome::Failed(e),
        Outcome::Refused(m) => Outcome::Refused(m),
    }
}

/// The Spectrum keyboard over a transport. Every exchange goes through the
/// transport, so the transport's log is the keyboard's.
pub struct Keyboard<T: Transport> {
    t: T,
}

impl<T: Transport> Keyboard<T> {
    /// The transport the keyboard talks through.
    pub closed spec fn transport(&self) -> T {
        self.t
    }

    /// The exchanges made through the keyboard's transport.
    pub open spec fn log(&self) -> Seq<Exchange> {
        self.transport().exchanges()
    }

    /// The keyboard's transport keeps the log of its exchanges.
    pub open spec fn logged(&self) -> bool {
        self.transport().keeps_log()
    }

    /// Opens the keyboard on transport `t`: the controller must answer the
    /// compatibility request with code 0. On failure the transport comes back
    /// with the error.
    pub fn connect(t: T) -> (r: core::result::Result<Self, (T, Error)>)
        ensures
            t.keeps_log() ==> match r {
                Ok(kb) => {
                    &&& kb.logged()
                    &&& t.exchanges().is_prefix_of(kb.log())
                    &&& connect_made(since(kb.log(), t.exchanges()), Ok(()))
                },
                Err((t2, e)) => {
                    &&& t2.keeps_log()
                    &&& t.exchanges().is_prefix_of(t2.exchanges())
                    &&& connect_made(since(t2.exchanges(), t.exchanges()), Err(e))
                },
            },
    {
        let mut kb = Keyboard { t };
        let empty: [u8; 0] = [];
        assert(empty@ =~= Seq::<u8>::empty());
        let got = kb.query(p::op::COMPATIBILITY, &empty);
        let r = match got {
            Ok(r) => r,
            Err(e) => return Err((kb.t, e)),
        };
        if r[4] != 0 {
            let mut m = String::from_str("контроллер несовместим (код ");
            crate::text::push_decimal(&mut m, r[4] as u64);
            m.append(")");
            return Err((kb.t, Error::Protocol(m)));
        }
        Ok(kb)
    }

    /// Name of the transport.
    pub fn name(&self) -> (s: String)
        ensures
            call_ensures(T::name, (&self.transport(),), s),
    {
        self.t.name()
    }

    fn query(&mut self, op: u8, params: &[u8]) -> (res: Result<Packet>)
        requires
            params@.len() <= REPORT_LEN - 4,
        ensures
            old(self).logged() ==> {
                &&& final(self).logged()
                &&& old(self).log().is_prefix_of(final(self).log())
                &&& query_made(
                    since(final(self).log(), old(self).log()),
                    request_spec(op, params@),
                    op,
                    None,
                    None,
                    res,
                )
            },
    {
        self.query_checked(op, params, None, None)
    }

    /// Request with a wait for its answer. The controller prepares an answer
    /// with a delay, and a read that comes too early returns the previous
    /// answer and drops the current one; so the request is repeated with a
    /// longer pause until an accepted answer comes.
    fn query_checked(&mut self, op: u8, params: &[u8], b4: Option<u8>, b5: Option<u8>) -> (res:
        Result<Packet>)
        requires
            params@.len() <= REPORT_LEN - 4,
        ensures
            old(self).logged() ==> {
                &&& final(self).logged()
                &&& old(self).log().is_prefix_of(final(self).log())
                &&& query_made(
                    since(final(self).log(), old(self).log()),
                    request_spec(op, params@),
                    op,
                    b4,
                    b5,
                    res,
                )
            },
    {
        let req = p::request(op, params);
        let ghost log0 = self.log();
        let ghost kept = self.logged();
        let ghost mut done: Seq<Exchange> = Seq::empty();
        assert forall|rest: Seq<Exchange>|
            #[trigger] query_run(done + rest, req@, op, b4, b5, 0) == shift(
                query_run(rest, req@, op, b4, b5, 0),
                0,
            ) by {
            assert(done + rest =~= rest);
        }
        let mut k: usize = 0;
        while k < 5
            invariant
                k <= 5,
                req@ == request_spec(op, params@),
                log0 == old(self).log(),
                kept == old(self).logged(),
                kept ==> self.logged() && self.log() == log0 + done,
                forall|rest: Seq<Exchange>|
                    #[trigger] query_run(done + rest, req@, op, b4, b5, 0) == shift(
                        query_run(rest, req@, op, b4, b5, k as int),
                        done.len() as int,
                    ),
            decreases 5 - k,
        {
            let wait = QUERY_WAITS[k];
            // A stale answer to an earlier command (maybe of another process)
            // may wait in the buffer: take it so it is not taken for this one.
            let stale = self.t.get_feature();
            let ghost e0 = Exchange::Read(read_view(stale));
            if stale.is_err() {
                let e = match stale {
                    Err(e) => e,
                    Ok(_) => Error::NotFound,
                };
                proof {
                    assert(kept ==> self.log() =~= log0 + done + seq![e0]);
                    if kept {
                        self.lemma_query_exit(log0, done, seq![e0], req@, op, b4, b5, k as int);
                    }
                }
                return Err(e);
            }
            let sent = self.send(&req);
            let ghost e1 = Exchange::Sent(req@, sent);
            if sent.is_err() {
                let e = match sent {
                    Err(e) => e,
                    Ok(_) => Error::NotFound,
                };
                proof {
                    assert(kept ==> self.log() =~= log0 + done + seq![e0, e1]);
                    if kept {
                        self.lemma_query_exit(log0, done, seq![e0, e1], req@, op, b4, b5, k as int);
                    }
                }
                return Err(e);
            }
            self.t.pause(wait);
            let ghost e2 = Exchange::Paused(wait);
            let got = self.t.get_feature();
            let ghost e3 = Exchange::Read(read_view(got));
            let r = match got {
                Ok(r) => r,
                Err(e) => {
                    proof {
                        assert(kept ==> self.log() =~= log0 + done + seq![e0, e1, e2, e3]);
                        if kept {
                        self.lemma_query_exit(log0, done, seq![e0, e1, e2, e3], req@, op, b4, b5, k as int);
                    }
                    }
                    return Err(e);
                },
            };
            let ok4 = match b4 {
                Some(v) => r[4] == v,
                None => true,
            };
            let ok5 = match b5 {
                Some(v) => r[5] == v,
                None => true,
            };
            if r[1] == op && ok4 && ok5 {
                proof {
                    assert(kept ==> self.log() =~= log0 + done + seq![e0, e1, e2, e3]);
                    if kept {
                        self.lemma_query_exit(log0, done, seq![e0, e1, e2, e3], req@, op, b4, b5, k as int);
                    }
                }
                return Ok(r);
            }
            proof {
                let round = seq![e0, e1, e2, e3];
                assert(kept ==> self.log() =~= log0 + (done + round));
                assert forall|rest: Seq<Exchange>|
                    #[trigger] query_run((done + round) + rest, req@, op, b4, b5, 0) == shift(
                        query_run(rest, req@, op, b4, b5, k + 1),
                        (done + round).len() as int,
                    ) by {
                    assert((done + round) + rest =~= done + (round + rest));
                    assert((round + rest).skip(4) =~= rest);
                    assert(query_run(done + (round + rest), req@, op, b4, b5, 0) == shift(
                        query_run(round + rest, req@, op, b4, b5, k as int),
                        done.len() as int,
                    ));
                }
                done = done + round;
            }
            k = k + 1;
        }
        let mut m = String::from_str("контроллер не ответил на запрос 0x");
        crate::text::push_hex2(&mut m, op);
        proof {
            assert(query_run(done + Seq::empty(), req@, op, b4, b5, 0) == shift(
                query_run(Seq::empty(), req@, op, b4, b5, 5),
                done.len() as int,
            ));
            assert(done + Seq::<Exchange>::empty() =~= done);
            if kept {
                assert(log0.is_prefix_of(self.log()));
                assert(since(self.log(), log0) =~= done);
            }
        }
        Err(Error::Protocol(m))
    }

    /// The log is `log0` and then `done + tail`, where `done` holds the tries
    /// before `k` and `tail` ends try `k`: the request's run is `tail`'s.
    proof fn lemma_query_exit(
        &self,
        log0: Seq<Exchange>,
        done: Seq<Exchange>,
        tail: Seq<Exchange>,
        req: Seq<u8>,
        op: u8,
        b4: Option<u8>,
        b5: Option<u8>,
        k: int,
    )
        requires
            self.log() == log0 + done + tail,
            forall|rest: Seq<Exchange>|
                #[trigger] query_run(done + rest, req, op, b4, b5, 0) == shift(
                    query_run(rest, req, op, b4, b5, k),
                    done.len() as int,
                ),
        ensures
            log0.is_prefix_of(self.log()),
            since(self.log(), log0) == done + tail,
            query_run(since(self.log(), log0), req, op, b4, b5, 0) == shift(
                query_run(tail, req, op, b4, b5, k),
                done.len() as int,
            ),
    {
        assert(since(self.log(), log0) =~= done + tail);
        assert(self.log().take(log0.len() as int) =~= log0);
    }

    fn send(&mut self, pkt: &Packet) -> (r: Result<()>)
        ensures
            old(self).logged() ==> final(self).logged() && final(self).log() == old(self).log().push(
                Exchange::Sent(pkt@, r),
            ),
    {
        self.t.set_feature(pkt)
    }

    /// The zone matrix: its size, then each row, then the zones outside it.
    pub fn key_matrix(&mut self) -> (res: Result<KeyMatrix>)
        ensures
            old(self).logged() ==> {
                &&& final(self).logged()
                &&& old(self).log().is_prefix_of(final(self).log())
                &&& matrix_run(since(final(self).log(), old(self).log())) matches Some((out, n))
                &&& n == final(self).log().len() - old(self).log().len()
                &&& yields(res, out, |m: KeyMatrix| m.shape())
            },
    {
        let ghost log0 = self.log();
        let ghost kept = self.logged();
        let ghost reqc = request_spec(p::op::KEY_COUNT, seq![7u8]);
        let params: [u8; 1] = [7];
        assert(params@ =~= seq![7u8]);
        let got = self.query(p::op::KEY_COUNT, &params);
        let ghost q0 = since(self.log(), log0);
        proof {
            if kept {
                lemma_since(self.log(), log0);
                lemma_query_run_done(q0, reqc, p::op::KEY_COUNT, None, None, 0);
                lemma_query_run_extends(q0, Seq::empty(), reqc, p::op::KEY_COUNT, None, None, 0);
                assert(self.log() =~= log0 + q0);
            }
        }
        let r = match got {
            Ok(r) => r,
            Err(e) => {
                proof {
                    if kept {
                        self.lemma_split(log0, q0, Seq::empty(), Seq::empty());
                    }
                }
                return Err(e);
            },
        };
        let ghost c = r@;
        let ghost log1 = self.log();
        let (height, width) = match p::parse_key_count(&r) {
            Some(hw) => hw,
            None => return Err(Error::Protocol(String::from_str("нет размера матрицы"))),
        };
        let ghost w = width as int;
        let ghost h = height as int;
        let mut rows: Vec<Vec<u16>> = Vec::new();
        let ghost mut done: Seq<Exchange> = Seq::empty();
        assert forall|rest: Seq<Exchange>|
            #[trigger] rows_run(done + rest, w, h, 0) == rows_prefix(
                rows_view(rows@),
                rows_run(rest, w, h, 0),
                0,
            ) by {
            assert(done + rest =~= rest);
            if let Some((Outcome::Done(rr), m)) = rows_run(rest, w, h, 0) {
                assert(rows_view(rows@) + rr =~= rr);
            }
        }
        let mut y: usize = 0;
        while y < height
            invariant
                y <= height <= 255,
                width <= 255,
                w == width,
                h == height,
                log0 == old(self).log(),
                kept == old(self).logged(),
                kept ==> log1 == log0 + q0,
                reqc == request_spec(p::op::KEY_COUNT, seq![7u8]),
                c.len() == REPORT_LEN,
                kept ==> query_run(q0, reqc, p::op::KEY_COUNT, None, None, 0) == Some(
                    (Outcome::Done(c), q0.len() as int),
                ),
                height == c[5],
                width == c[6],
                kept ==> self.logged() && self.log() == log1 + done,
                rows@.len() == y,
                kept ==> forall|rest: Seq<Exchange>|
                    #[trigger] rows_run(done + rest, w, h, 0) == rows_prefix(
                        rows_view(rows@),
                        rows_run(rest, w, h, y as int),
                        done.len() as int,
                    ),
            decreases height - y,
        {
            let ghost reqy = request_spec(p::op::KEY_PAGE, seq![7u8, y as u8]);
            let params: [u8; 2] = [7, y as u8];
            assert(params@ =~= seq![7u8, y as u8]);
            let ghost before = self.log();
            let got = self.query_checked(p::op::KEY_PAGE, &params, Some(7), Some(y as u8));
            let ghost q = since(self.log(), before);
            proof {
                if kept {
                    lemma_since(self.log(), before);
                    assert(self.log() =~= log1 + (done + q));
                    lemma_query_run_done(q, reqy, p::op::KEY_PAGE, Some(7u8), Some(y as u8), 0);
                }
            }
            let r = match got {
                Ok(r) => r,
                Err(e) => {
                    proof {
                        if kept {
                            lemma_query_run_extends(q, Seq::empty(), reqy, p::op::KEY_PAGE, Some(7u8), Some(y as u8), 0);
                            assert(q + Seq::empty() =~= q);
                            assert(rows_run(done + q, w, h, 0) == rows_prefix(
                                rows_view(rows@),
                                rows_run(q, w, h, y as int),
                                done.len() as int,
                            ));
                            self.lemma_split(log0, q0, done + q, Seq::empty());
                            assert((done + q) + Seq::empty() =~= done + q);
                        }
                    }
                    return Err(e);
                },
            };
            let page = p::parse_key_page(&r, width);
            proof {
                assert(rows_view(rows@.push(page)) =~= rows_view(rows@).push(page@));
                if kept {
                    lemma_rows_step(done, q, rows_view(rows@), r@, w, h, y as int);
                }
                done = done + q;
            }
            rows.push(page);
            y = y + 1;
        }
        let ghost req8 = request_spec(p::op::KEY_PAGE, seq![8u8, 0u8]);
        let params: [u8; 2] = [8, 0];
        assert(params@ =~= seq![8u8, 0u8]);
        let ghost log2 = self.log();
        let got = self.query_checked(p::op::KEY_PAGE, &params, Some(8), None);
        let ghost q3 = since(self.log(), log2);
        proof {
            if kept {
            lemma_since(self.log(), log2);
            assert(self.log() =~= log1 + done + q3);
            assert(rows_run(done + q3, w, h, 0) == rows_prefix(
                rows_view(rows@),
                rows_run(q3, w, h, y as int),
                done.len() as int,
            ));
            assert(rows_view(rows@) + Seq::empty() =~= rows_view(rows@));
            lemma_query_run_done(q3, req8, p::op::KEY_PAGE, Some(8u8), None, 0);
            lemma_query_run_extends(q3, Seq::empty(), req8, p::op::KEY_PAGE, Some(8u8), None, 0);
            assert(q3 + Seq::empty() =~= q3);
            self.lemma_split(log0, q0, done, q3);
            }
        }
        let r = match got {
            Ok(r) => r,
            Err(e) => return Err(e),
        };
        let page = p::parse_key_page(&r, width);
        let mut extra: Vec<u16> = Vec::new();
        let mut x: usize = 0;
        while x < page.len()
            invariant
                x <= page@.len(),
                extra@ == nonzero(page@.take(x as int)),
            decreases page@.len() - x,
        {
            proof {
                reveal_with_fuel(Seq::filter, 1);
                assert(page@.take(x + 1).drop_last() =~= page@.take(x as int));
            }
            if page[x] != 0 {
                extra.push(page[x]);
            }
            x = x + 1;
        }
        assert(page@.take(x as int) =~= page@);
        assert(page@ =~= page_codes(r@, w));
        Ok(KeyMatrix { width, height, rows, extra })
    }

    /// The log is `log0`, then the size request `q0`, then the row requests
    /// `rows`, then `tail`; the size request's run is unchanged by what follows.
    proof fn lemma_split(
        &self,
        log0: Seq<Exchange>,
        q0: Seq<Exchange>,
        rows: Seq<Exchange>,
        tail: Seq<Exchange>,
    )
        requires
            self.log() == log0 + q0 + rows + tail,
            query_run(q0, request_spec(p::op::KEY_COUNT, seq![7u8]), p::op::KEY_COUNT, None, None, 0) is Some,
        ensures
            log0.is_prefix_of(self.log()),
            since(self.log(), log0) == q0 + rows + tail,
            (q0 + rows + tail).skip(q0.len() as int) == rows + tail,
            (q0 + rows + tail).skip((q0.len() + rows.len()) as int) == tail,
            query_run(q0 + rows + tail, request_spec(p::op::KEY_COUNT, seq![7u8]), p::op::KEY_COUNT, None, None, 0)
                == query_run(q0, request_spec(p::op::KEY_COUNT, seq![7u8]), p::op::KEY_COUNT, None, None, 0),
    {
        assert(since(self.log(), log0) =~= q0 + rows + tail);
        assert(self.log().take(log0.len() as int) =~= log0);
        assert((q0 + rows + tail).skip(q0.len() as int) =~= rows + tail);
        assert((q0 + rows + tail).skip((q0.len() + rows.len()) as int) =~= tail);
        assert(q0 + rows + tail =~= q0 + (rows + tail));
        lemma_query_run_extends(q0, rows + tail, request_spec(p::op::KEY_COUNT, seq![7u8]), p::op::KEY_COUNT, None, None, 0);
    }

    /// Keyboard brightness, 0 to 9.
    pub fn brightness(&mut self) -> (res: Result<u8>)
        ensures
            old(self).logged() ==> {
                &&& final(self).logged()
                &&& old(self).log().is_prefix_of(final(self).log())
                &&& read_made(since(final(self).log(), old(self).log()), p::op::GET_BRIGHTNESS, res, |v: u8| v)
            },
    {
        let empty: [u8; 0] = [];
        assert(empty@ =~= Seq::<u8>::empty());
        match self.query(p::op::GET_BRIGHTNESS, &empty) {
            Ok(r) => Ok(r[4]),
            Err(e) => Err(e),
        }
    }

    /// Sets the brightness, capped at 9.
    pub fn set_brightness(&mut self, v: u8) -> (res: Result<()>)
        ensures
            old(self).logged() ==> final(self).logged() && final(self).log() == old(self).log().push(
                Exchange::Sent(
                    request_spec(
                        p::op::SET_BRIGHTNESS,
                        seq![if v > p::MAX_BRIGHTNESS { p::MAX_BRIGHTNESS } else { v }],
                    ),
                    res,
                ),
            ),
    {
        let params: [u8; 1] = [if v > p::MAX_BRIGHTNESS { p::MAX_BRIGHTNESS } else { v }];
        assert(params@ =~= seq![if v > p::MAX_BRIGHTNESS { p::MAX_BRIGHTNESS } else { v }]);
        self.send(&p::request(p::op::SET_BRIGHTNESS, &params))
    }

    /// The active hardware profile.
    pub fn profile(&mut self) -> (res: Result<u8>)
        ensures
            old(self).logged() ==> {
                &&& final(self).logged()
                &&& old(self).log().is_prefix_of(final(self).log())
                &&& read_made(since(final(self).log(), old(self).log()), p::op::GET_PROFILE, res, |v: u8| v)
            },
    {
        let empty: [u8; 0] = [];
        assert(empty@ =~= Seq::<u8>::empty());
        match self.query(p::op::GET_PROFILE, &empty) {
            Ok(r) => Ok(r[4]),
            Err(e) => Err(e),
        }
    }

    /// Makes profile `n` active.
    pub fn set_profile(&mut self, n: u8) -> (res: Result<()>)
        ensures
            old(self).logged() ==> final(self).logged() && final(self).log() == old(self).log().push(
                Exchange::Sent(request_spec(p::op::SET_PROFILE, seq![n]), res),
            ),
    {
        let params: [u8; 1] = [n];
        assert(params@ =~= seq![n]);
        self.send(&p::request(p::op::SET_PROFILE, &params))
    }

    /// Gives profile `n` back its factory effects.
    pub fn reset_profile(&mut self, n: u8) -> (res: Result<()>)
        ensures
            old(self).logged() ==> final(self).logged() && final(self).log() == old(self).log().push(
                Exchange::Sent(request_spec(p::op::PROFILE_DEFAULT, seq![n]), res),
            ),
    {
        let params: [u8; 1] = [n];
        assert(params@ =~= seq![n]);
        self.send(&p::request(p::op::PROFILE_DEFAULT, &params))
    }

    /// Whether the logo on the lid is lit.
    pub fn logo(&mut self) -> (res: Result<bool>)
        ensures
            old(self).logged() ==> {
                &&& final(self).logged()
                &&& old(self).log().is_prefix_of(final(self).log())
                &&& read_made(since(final(self).log(), old(self).log()), p::op::GET_LOGO, res, |b: u8| b == 1)
            },
    {
        let empty: [u8; 0] = [];
        assert(empty@ =~= Seq::<u8>::empty());
        match self.query(p::op::GET_LOGO, &empty) {
            Ok(r) => Ok(r[4] == 1),
            Err(e) => Err(e),
        }
    }

    /// Lights the logo or puts it out.
    pub fn set_logo(&mut self, on: bool) -> (res: Result<()>)
        ensures
            old(self).logged() ==> final(self).logged() && final(self).log() == old(self).log().push(
                Exchange::Sent(request_spec(p::op::SET_LOGO, seq![if on { 1u8 } else { 0u8 }]), res),
            ),
    {
        let params: [u8; 1] = [if on { 1 } else { 0 }];
        assert(params@ =~= seq![if on { 1u8 } else { 0u8 }]);
        self.send(&p::request(p::op::SET_LOGO, &params))
    }

    /// The layers of profile `profile`.
    pub fn effects(&mut self, profile: u8) -> (res: Result<Vec<Effect>>)
        ensures
            old(self).logged() ==> {
                &&& final(self).logged()
                &&& old(self).log().is_prefix_of(final(self).log())
                &&& query_run(
                    since(final(self).log(), old(self).log()),
                    request_spec(p::op::GET_EFFECTS, seq![profile]),
                    p::op::GET_EFFECTS,
                    Some(profile),
                    None,
                    0,
                ) matches Some((out, n))
                &&& n == final(self).log().len() - old(self).log().len()
                &&& yields(res, layers_of(out), |es: Vec<Effect>| models(es@))
            },
    {
        let params: [u8; 1] = [profile];
        assert(params@ =~= seq![profile]);
        let r = match self.query_checked(p::op::GET_EFFECTS, &params, Some(profile), None) {
            Ok(r) => r,
            Err(e) => return Err(e),
        };
        match p::decode_effects(&r) {
            Some((_, e)) => Ok(e),
            None => Err(
                Error::Protocol(String::from_str("не удалось разобрать описание профиля")),
            ),
        }
    }

    /// Writes the layers into profile `profile`, with their overlaps resolved
    /// (see [`p::compress`]).
    pub fn set_effects(&mut self, profile: u8, effects: &[Effect]) -> (res: Result<()>)
        requires
            description_len(models(effects@)) <= usize::MAX,
        ensures
            match encode_spec(profile, compress_spec(models(effects@))) {
                Ok(pkt) => old(self).logged() ==> final(self).logged() && final(self).log()
                    == old(self).log().push(Exchange::Sent(pkt, res)),
                Err(e) => res matches Err(Error::Protocol(m)) && m@ == e.message_text()
                    && *final(self) == *old(self),
            },
    {
        let c = p::compress(effects);
        proof {
            p::codec::lemma_compress_len(models(effects@));
        }
        match p::encode_effects(profile, c.as_slice()) {
            Ok(pkt) => self.send(&pkt),
            Err(e) => Err(Error::Protocol(e.message())),
        }
    }

    /// The current lighting frame: the colour of every zone. `None` when a
    /// late answer to a command came instead of a frame. One read, no write.
    pub fn state(&mut self) -> (res: Result<Option<Vec<(u16, Rgb)>>>)
        ensures
            old(self).logged() ==> {
                &&& final(self).logged()
                &&& final(self).log() == old(self).log().push(final(self).log().last())
                &&& final(self).log().last() matches Exchange::Read(x) && match x {
                    Ok(r) => if r[1] == p::STATE_REPORT {
                        res matches Ok(Some(v)) && v@ == state_entries(r, state_entry_count(r))
                    } else {
                        res matches Ok(None)
                    },
                    Err(e) => res matches Err(e2) && e2 == e,
                }
            },
    {
        let r = match self.t.get_feature() {
            Ok(r) => r,
            Err(e) => return Err(e),
        };
        if r[1] == p::STATE_REPORT {
            Ok(Some(p::parse_state(&r)))
        } else {
            Ok(None)
        }
    }
}

// ---------------------------------------------------------------------------
// Discovery: ioctl numbers, report descriptors, uevent files.

/// `_IOC(_IOC_READ|_IOC_WRITE, 'H', nr, len)` from `<linux/hidraw.h>`.
pub open spec fn ioc_spec(nr: u32, len: usize) -> u64 {
    (0xC000_0000u32 | ((len as u32) << 16u32) | 0x4800u32 | nr) as u64
}

/// The ioctl number of hidraw request `nr` on a `len`-byte buffer.
pub fn hidioc(nr: u32, len: usize) -> (r: u64)
    ensures
        r == ioc_spec(nr, len),
        nr < 256 && len < 0x4000 ==> r == 0xC000_0000 + len * 0x10000 + 0x4800 + nr,
{
    let l = len as u32;
    let r = (0xC000_0000u32 | (l << 16u32) | 0x4800u32 | nr) as u64;
    if nr < 256 && len < 0x4000 {
        assert(l == len);
        assert((0xC000_0000u32 | (l << 16u32) | 0x4800u32 | nr) == 0xC000_0000 + l * 0x10000
            + 0x4800 + nr) by (bit_vector)
            requires
                nr < 256,
                l < 0x4000,
        ;
    }
    r
}

/// `HIDIOCSFEATURE` for a full report.
pub const HIDIOCSFEATURE: u64 = 0xC3C0_4806;

/// `HIDIOCGFEATURE` for a full report.
pub const HIDIOCGFEATURE: u64 = 0xC3C0_4807;

/// The feature ioctl numbers are those of `_IOC` for a full report.
pub proof fn lemma_feature_ioctls()
    ensures
        ioc_spec(0x06, REPORT_LEN) == HIDIOCSFEATURE,
        ioc_spec(0x07, REPORT_LEN) == HIDIOCGFEATURE,
{
    assert((0xC000_0000u32 | ((960u32) << 16u32) | 0x4800u32 | 6u32) == 0xC3C0_4806u32) by (bit_vector);
    assert((0xC000_0000u32 | ((960u32) << 16u32) | 0x4800u32 | 7u32) == 0xC3C0_4807u32) by (bit_vector);
}

/// Byte `j` of `s`, or 0 past the end.
pub open spec fn byte_or0(s: Seq<u8>, j: int) -> int {
    if 0 <= j < s.len() {
        s[j] as int
    } else {
        0
    }
}

/// Little-endian value of the `n` data bytes of the item at `i`.
pub open spec fn item_data(desc: Seq<u8>, i: int, n: int) -> int
    decreases n,
{
    if n <= 0 {
        0
    } else {
        item_data(desc, i, n - 1) + byte_or0(desc, i + n) * (if n == 1 {
            1int
        } else if n == 2 {
            0x100int
        } else if n == 3 {
            0x10000int
        } else {
            0x1000000int
        })
    }
}

/// Number of data bytes of a short item with prefix `prefix`.
pub open spec fn item_size(prefix: u8) -> int {
    if prefix % 4 == 3 {
        4
    } else {
        (prefix % 4) as int
    }
}

/// Scan of a report descriptor from item `i`, with the current report id,
/// report size and report count: the byte length of feature report `id`.
pub open spec fn scan_report_len(desc: Seq<u8>, id: u8, i: int, cur: u8, size: int, count: int) -> Option<int>
    decreases desc.len() - i,
{
    if i < 0 || i >= desc.len() {
        None
    } else {
        let prefix = desc[i];
        if prefix == 0xFE {
            let next = i + 3 + byte_or0(desc, i + 1);
            if next >= desc.len() {
                None
            } else {
                scan_report_len(desc, id, next, cur, size, count)
            }
        } else {
            let n = item_size(prefix);
            let val = item_data(desc, i, n);
            let tag = prefix - prefix % 4;
            let next = i + 1 + n;
            if tag == 0xB0 && cur == id {
                Some(size * count / 8)
            } else if next >= desc.len() {
                None
            } else if tag == 0x84 {
                scan_report_len(desc, id, next, (val % 256) as u8, size, count)
            } else if tag == 0x74 {
                scan_report_len(desc, id, next, cur, val, count)
            } else if tag == 0x94 {
                scan_report_len(desc, id, next, cur, size, val)
            } else {
                scan_report_len(desc, id, next, cur, size, count)
            }
        }
    }
}

/// Length in bytes of feature report `id`, from the report descriptor.
pub fn feature_report_len(desc: &[u8], id: u8) -> (r: Option<usize>)
    ensures
        match scan_report_len(desc@, id, 0, 0, 0, 0) {
            Some(n) => r == Some(#[verifier::truncate] (n as usize)),
            None => r is None,
        },
{
    let mut i: usize = 0;
    let mut cur: u8 = 0;
    let mut size: u64 = 0;
    let mut count: u64 = 0;
    while i < desc.len()
        invariant
            i <= desc@.len(),
            size < 0x1_0000_0000,
            count < 0x1_0000_0000,
            scan_report_len(desc@, id, 0, 0, 0, 0) == scan_report_len(
                desc@,
                id,
                i as int,
                cur,
                size as int,
                count as int,
            ),
        decreases desc@.len() - i,
    {
        let prefix = desc[i];
        if prefix == 0xFE {
            let skip: usize = 3 + if i + 1 < desc.len() {
                desc[i + 1] as usize
            } else {
                0
            };
            assert(skip == 3 + byte_or0(desc@, i + 1));
            if skip >= desc.len() - i {
                return None;
            }
            i = i + skip;
        } else {
            let n: usize = if prefix % 4 == 3 {
                4
            } else {
                (prefix % 4) as usize
            };
            let mut val: u64 = 0;
            let mut k: usize = 0;
            let mut mult: u64 = 1;
            while k < n
                invariant
                    k <= n <= 4,
                    i < desc@.len(),
                    n == item_size(prefix),
                    mult == (if k == 0 {
                        1int
                    } else if k == 1 {
                        0x100int
                    } else if k == 2 {
                        0x10000int
                    } else if k == 3 {
                        0x1000000int
                    } else {
                        0x100000000int
                    }),
                    val == item_data(desc@, i as int, k as int),
                    val < mult,
                decreases n - k,
            {
                let b: u64 = if k < desc.len() - i - 1 {
                    desc[i + 1 + k] as u64
                } else {
                    0
                };
                val = val + b * mult;
                if k < 3 {
                    mult = mult * 256;
                } else {
                    mult = 0x1_0000_0000;
                }
                k = k + 1;
            }
            let tag = prefix - prefix % 4;
            if tag == 0x84 {
                cur = (val % 256) as u8;
            } else if tag == 0x74 {
                size = val;
            } else if tag == 0x94 {
                count = val;
            } else if tag == 0xB0 && cur == id {
                assert(size * count <= 0xffff_fffe_0000_0001) by (nonlinear_arith)
                    requires
                        size < 0x1_0000_0000,
                        count < 0x1_0000_0000,
                ;
                let prod: u64 = size * count;
                return Some(#[verifier::truncate] ((prod / 8) as usize));
            }
            if 1 + n >= desc.len() - i {
                return None;
            }
            i = i + 1 + n;
        }
    }
    None
}

/// The line contents of `b` from byte `start`: up to the next `\n` (or the
/// end), without a `\r` that comes right before that `\n`.
pub open spec fn next_newline(b: Seq<u8>, start: int) -> int
    decreases b.len() - start,
{
    if start >= b.len() || start < 0 {
        b.len() as int
    } else if b[start] == 0x0A {
        start
    } else {
        next_newline(b, start + 1)
    }
}

pub open spec fn hid_prefix() -> Seq<u8> {
    seq![0x48u8, 0x49u8, 0x44u8, 0x5Fu8, 0x49u8, 0x44u8, 0x3Du8]
}

/// The next line break lies between `start` and the end.
pub proof fn lemma_next_newline(b: Seq<u8>, start: int)
    requires
        0 <= start <= b.len(),
    ensures
        start <= next_newline(b, start) <= b.len(),
    decreases b.len() - start,
{
    if start < b.len() && b[start] != 0x0A {
        lemma_next_newline(b, start + 1);
    }
}

/// Range of the text after `HID_ID=` on the first line, from `start` on,
/// that begins with it.
pub open spec fn hid_line(b: Seq<u8>, start: int) -> Option<(int, int)>
    decreases b.len() - start,
{
    if start >= b.len() || start < 0 {
        None
    } else {
        let end = next_newline(b, start);
        proof {
            lemma_next_newline(b, start);
        }
        let stop = if end < b.len() && end > start && b[end - 1] == 0x0D {
            end - 1
        } else {
            end
        };
        if stop - start >= 7 && b.subrange(start, start + 7) == hid_prefix() {
            Some((start + 7, stop))
        } else if end >= b.len() {
            None
        } else {
            hid_line(b, end + 1)
        }
    }
}

/// First `:` in `b[from..to]`, or `to`.
pub open spec fn next_colon(b: Seq<u8>, from: int, to: int) -> int
    decreases to - from,
{
    if from >= to {
        to
    } else if b[from] == 0x3A {
        from
    } else {
        next_colon(b, from + 1, to)
    }
}

/// `(vid, pid)` from a uevent text: the second and third `:`-separated fields
/// of its `HID_ID=` line, read as hexadecimal `u32` and cut to 16 bits.
pub open spec fn hid_id_spec(b: Seq<u8>) -> Option<(u16, u16)> {
    match hid_line(b, 0) {
        None => None,
        Some((s, e)) => {
            let c1 = next_colon(b, s, e);
            if c1 >= e {
                None
            } else {
                let c2 = next_colon(b, c1 + 1, e);
                if c2 >= e {
                    None
                } else {
                    let c3 = next_colon(b, c2 + 1, e);
                    match (
                        crate::text::parse_unsigned_spec(b.subrange(c1 + 1, c2), 16, 0xffff_ffff),
                        crate::text::parse_unsigned_spec(b.subrange(c2 + 1, c3), 16, 0xffff_ffff),
                    ) {
                        (Some(v), Some(p)) => Some(((v % 0x10000) as u16, (p % 0x10000) as u16)),
                        _ => None,
                    }
                }
            }
        }
    }
}

fn find_newline(b: &[u8], start: usize) -> (r: usize)
    requires
        start <= b@.len(),
    ensures
        r == next_newline(b@, start as int),
        start <= r <= b@.len(),
    decreases b@.len() - start,
{
    if start >= b.len() {
        b.len()
    } else if b[start] == 0x0A {
        start
    } else {
        find_newline(b, start + 1)
    }
}

fn find_colon(b: &[u8], from: usize, to: usize) -> (r: usize)
    requires
        from <= to <= b@.len(),
    ensures
        r == next_colon(b@, from as int, to as int),
        from <= r <= to,
    decreases to - from,
{
    if from >= to {
        to
    } else if b[from] == 0x3A {
        from
    } else {
        find_colon(b, from + 1, to)
    }
}

fn starts_with_hid(b: &[u8], start: usize, stop: usize) -> (r: bool)
    requires
        start <= stop <= b@.len(),
    ensures
        r == (stop - start >= 7 && b@.subrange(start as int, start + 7) == hid_prefix()),
{
    if stop - start < 7 {
        return false;
    }
    let ok = b[start] == 0x48 && b[start + 1] == 0x49 && b[start + 2] == 0x44 && b[start + 3] == 0x5F
        && b[start + 4] == 0x49 && b[start + 5] == 0x44 && b[start + 6] == 0x3D;
    assert(ok == (b@.subrange(start as int, start + 7) =~= hid_prefix()));
    ok
}

/// `(vid, pid)` from the `HID_ID=bus:vid:pid` line of a uevent file.
pub fn parse_hid_id(uevent: &str) -> (r: Option<(u16, u16)>)
    ensures
        r == hid_id_spec(uevent.spec_bytes()),
{
    let b = uevent.as_bytes();
    let mut start: usize = 0;
    let mut s: usize = 0;
    let mut e: usize = 0;
    loop
        invariant_except_break
            start <= b@.len(),
            b@ == uevent.spec_bytes(),
            hid_line(b@, 0) == hid_line(b@, start as int),
        ensures
            b@ == uevent.spec_bytes(),
            hid_line(b@, 0) == Some((s as int, e as int)),
            s <= e <= b@.len(),
        decreases b@.len() - start,
    {
        if start >= b.len() {
            return None;
        }
        let end = find_newline(b, start);
        let stop = if end < b.len() && end > start && b[end - 1] == 0x0D {
            end - 1
        } else {
            end
        };
        if starts_with_hid(b, start, stop) {
            s = start + 7;
            e = stop;
            break;
        }
        if end >= b.len() {
            return None;
        }
        start = end + 1;
    }
    let c1 = find_colon(b, s, e);
    if c1 >= e {
        return None;
    }
    let c2 = find_colon(b, c1 + 1, e);
    if c2 >= e {
        return None;
    }
    let c3 = find_colon(b, c2 + 1, e);
    let vid = crate::text::parse_unsigned(b, c1 + 1, c2, 16, 0xffff_ffff);
    let pid = crate::text::parse_unsigned(b, c2 + 1, c3, 16, 0xffff_ffff);
    match (vid, pid) {
        (Some(v), Some(p)) => Some(((v % 0x10000) as u16, (p % 0x10000) as u16)),
        _ => None,
    }
}


/// A hidraw device is a Spectrum interface candidate when its uevent names
/// vendor `048D` and a product `c1xx` or `c9xx`, and its report descriptor
/// has a feature report `0x07` of 959 bytes (960 with the report ID).
pub open spec fn candidate_spec(uevent: Seq<u8>, desc: Seq<u8>) -> Option<u16> {
    match hid_id_spec(uevent) {
        Some((vid, pid)) => if vid == VID && ((pid & 0xFF00) == 0xC100 || (pid & 0xFF00) == 0xC900)
            && match scan_report_len(desc, REPORT_ID, 0, 0, 0, 0) {
            Some(n) => (#[verifier::truncate] (n as usize)) == REPORT_LEN - 1,
            None => false,
        } {
            Some(pid)
        } else {
            None
        },
        None => None,
    }
}

/// The product ID of a candidate Spectrum interface, from its uevent text and
/// report descriptor; `None` for any other device. The compatibility request
/// decides in the end (the `c193` has the same descriptor and another protocol).
pub fn candidate(uevent: &str, desc: &[u8]) -> (r: Option<u16>)
    ensures
        r == candidate_spec(uevent.spec_bytes(), desc@),
{
    match parse_hid_id(uevent) {
        Some((vid, pid)) => {
            let family = pid & 0xFF00;
            if vid != VID || !(family == 0xC100 || family == 0xC900) {
                return None;
            }
            match feature_report_len(desc, REPORT_ID) {
                Some(n) => if n == REPORT_LEN - 1 {
                    Some(pid)
                } else {
                    None
                },
                None => None,
            }
        },
        None => None,
    }
}

} // verus!
