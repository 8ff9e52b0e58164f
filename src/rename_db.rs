//! The rename ledger: an append-only list of rename records grouped by
//! operation id, with listing, the order in which an operation is reversed,
//! and retention by age.
use vstd::prelude::*;

use crate::aggregate::copy_string;
use crate::prefix_finder::{lemma_strings_push, owned, strings_view};

verus! {

/// One rename, as the ledger keeps it.
#[derive(Debug, Clone)]
pub struct RenameRecord {
    pub id: i64,
    /// Microseconds since the Unix epoch, UTC.
    pub timestamp: i64,
    pub old_path: String,
    pub new_path: String,
    pub directory: String,
    pub prefix_removed: String,
    pub operation_id: String,
}

/// The mathematical value of a `RenameRecord`.
pub struct RecordView {
    pub id: int,
    pub timestamp: int,
    pub old_path: Seq<char>,
    pub new_path: Seq<char>,
    pub directory: Seq<char>,
    pub prefix_removed: Seq<char>,
    pub operation_id: Seq<char>,
}

impl View for RenameRecord {
    type V = RecordView;

    open spec fn view(&self) -> RecordView {
        RecordView {
            id: self.id as int,
            timestamp: self.timestamp as int,
            old_path: self.old_path@,
            new_path: self.new_path@,
            directory: self.directory@,
            prefix_removed: self.prefix_removed@,
            operation_id: self.operation_id@,
        }
    }
}

pub open spec fn records_view(v: Seq<RenameRecord>) -> Seq<RecordView> {
    v.map_values(|r: RenameRecord| r@)
}

/// Why the ledger refused a request.
#[derive(Debug, Clone, Copy, PartialEq, Eq)]
pub enum LedgerError {
    /// No record carries the operation id.
    OperationNotFound,
    /// Every record id that the ledger can hand out is taken.
    IdsExhausted,
}

/// The ledger: where it is stored, its records in the order they were
/// appended, and the id the next record gets.
#[derive(Debug, Clone)]
pub struct RenameDatabase {
    db_path: String,
    records: Vec<RenameRecord>,
    next_id: i64,
}

/// The mathematical value of a `RenameDatabase`.
pub struct LedgerView {
    pub db_path: Seq<char>,
    pub records: Seq<RecordView>,
    pub next_id: int,
}

impl View for RenameDatabase {
    type V = LedgerView;

    closed spec fn view(&self) -> LedgerView {
        LedgerView {
            db_path: self.db_path@,
            records: records_view(self.records@),
            next_id: self.next_id as int,
        }
    }
}

/// Every record id is positive and below the next id to hand out, so the
/// next id is fresh.
pub open spec fn ledger_wf(l: LedgerView) -> bool {
    &&& 1 <= l.next_id <= i64::MAX
    &&& forall|i: int| 0 <= i < l.records.len() ==> 1 <= #[trigger] l.records[i].id < l.next_id
}

/// The records of one operation, in the order they were appended.
pub open spec fn operation_records(rs: Seq<RecordView>, op: Seq<char>) -> Seq<RecordView>
    decreases rs.len(),
{
    if rs.len() == 0 {
        Seq::empty()
    } else {
        let r = operation_records(rs.drop_last(), op);
        if rs.last().operation_id == op {
            r.push(rs.last())
        } else {
            r
        }
    }
}

/// The first position from `i` on whose timestamp is later than `t`, else the end.
pub open spec fn time_insert_pos(s: Seq<RecordView>, t: int, i: int) -> int
    decreases s.len() - i,
{
    if i < 0 || i >= s.len() {
        s.len() as int
    } else if s[i].timestamp > t {
        i
    } else {
        time_insert_pos(s, t, i + 1)
    }
}

/// Records oldest first; equal timestamps keep their order.
pub open spec fn oldest_first(s: Seq<RecordView>) -> Seq<RecordView>
    decreases s.len(),
{
    if s.len() == 0 {
        Seq::empty()
    } else {
        let r = oldest_first(s.drop_last());
        r.insert(time_insert_pos(r, s.last().timestamp, 0), s.last())
    }
}

/// The records of an operation, oldest first.
pub open spec fn operation_history(rs: Seq<RecordView>, op: Seq<char>) -> Seq<RecordView> {
    oldest_first(operation_records(rs, op))
}

/// The distinct operation ids, in the order of their first record.
pub open spec fn operations_in_order(rs: Seq<RecordView>) -> Seq<Seq<char>>
    decreases rs.len(),
{
    if rs.len() == 0 {
        Seq::empty()
    } else {
        let r = operations_in_order(rs.drop_last());
        if r.contains(rs.last().operation_id) {
            r
        } else {
            r.push(rs.last().operation_id)
        }
    }
}

/// The earliest timestamp among the records of `op` (the first `n` records).
pub open spec fn earliest(rs: Seq<RecordView>, op: Seq<char>, n: int) -> Option<int>
    decreases n,
{
    if n <= 0 {
        None
    } else {
        let e = earliest(rs, op, n - 1);
        if rs[n - 1].operation_id != op {
            e
        } else {
            match e {
                Some(t) => if rs[n - 1].timestamp < t {
                    Some(rs[n - 1].timestamp)
                } else {
                    Some(t)
                },
                None => Some(rs[n - 1].timestamp),
            }
        }
    }
}

pub open spec fn start_time(rs: Seq<RecordView>, op: Seq<char>) -> int {
    match earliest(rs, op, rs.len() as int) {
        Some(t) => t,
        None => 0,
    }
}

/// The first position from `i` on whose start time is earlier than `t`, else the end.
pub open spec fn start_insert_pos(s: Seq<(Seq<char>, int)>, t: int, i: int) -> int
    decreases s.len() - i,
{
    if i < 0 || i >= s.len() {
        s.len() as int
    } else if s[i].1 < t {
        i
    } else {
        start_insert_pos(s, t, i + 1)
    }
}

/// Operations with their start times, latest start first; equal start times
/// keep their order.
pub open spec fn latest_first(s: Seq<(Seq<char>, int)>) -> Seq<(Seq<char>, int)>
    decreases s.len(),
{
    if s.len() == 0 {
        Seq::empty()
    } else {
        let r = latest_first(s.drop_last());
        r.insert(start_insert_pos(r, s.last().1, 0), s.last())
    }
}

/// The distinct operation ids, most recently started first, at most `limit`.
pub open spec fn recent_operations(rs: Seq<RecordView>, limit: nat) -> Seq<Seq<char>> {
    let ops = operations_in_order(rs);
    let timed = ops.map_values(|op: Seq<char>| (op, start_time(rs, op)));
    let sorted = latest_first(timed);
    let kept = if sorted.len() <= limit {
        sorted
    } else {
        sorted.subrange(0, limit as int)
    };
    kept.map_values(|e: (Seq<char>, int)| e.0)
}

/// The records from `cutoff` on, in order.
pub open spec fn records_since(rs: Seq<RecordView>, cutoff: int) -> Seq<RecordView>
    decreases rs.len(),
{
    if rs.len() == 0 {
        Seq::empty()
    } else {
        let r = records_since(rs.drop_last(), cutoff);
        if rs.last().timestamp >= cutoff {
            r.push(rs.last())
        } else {
            r
        }
    }
}

pub open spec fn microseconds_per_day() -> int {
    86_400_000_000
}

/// The oldest timestamp that a retention of `days` days keeps at time `now`.
pub open spec fn retention_cutoff(now: int, days: int) -> int {
    now - days * microseconds_per_day()
}

#[verifier::external_type_specification]
#[verifier::external_body]
pub struct ExSystemTime(std::time::SystemTime);

/// Relies on `SystemTime::now`: the clock's current reading.
#[verifier::external_body]
fn system_now() -> std::time::SystemTime {
    std::time::SystemTime::now()
}

/// Relies on `SystemTime::duration_since`: the time from the Unix epoch to
/// `t`, or `None` when `t` lies before the epoch.
#[verifier::external_body]
fn since_unix_epoch(t: &std::time::SystemTime) -> Option<core::time::Duration> {
    t.duration_since(std::time::UNIX_EPOCH).ok()
}

/// Relies on `Duration::as_micros`: the whole microseconds in `d`.
#[verifier::external_body]
fn whole_micros(d: &core::time::Duration) -> u128 {
    d.as_micros()
}

/// Microseconds since the Unix epoch; a clock before the epoch counts as
/// the epoch, one beyond what `i64` holds as the largest `i64`.
pub open spec fn clock_reading(m: Option<u128>) -> int {
    match m {
        Some(v) => if v <= i64::MAX as u128 {
            v as int
        } else {
            i64::MAX as int
        },
        None => 0,
    }
}

/// The current time in microseconds since the Unix epoch, never negative.
fn now_micros() -> (r: i64)
    ensures
        r >= 0,
        exists|m: Option<u128>| r == clock_reading(m),
{
    let m = match since_unix_epoch(&system_now()) {
        Some(d) => Some(whole_micros(&d)),
        None => None,
    };
    let r = match m {
        Some(v) => if v <= i64::MAX as u128 {
            v as i64
        } else {
            i64::MAX
        },
        None => 0,
    };
    assert(r == clock_reading(m));
    r
}

pub open spec fn digit_char(d: int) -> char {
    seq!['0', '1', '2', '3', '4', '5', '6', '7', '8', '9'][d]
}

/// The decimal digits of `n`, most significant first.
pub open spec fn decimal(n: nat) -> Seq<char>
    decreases n,
{
    if n < 10 {
        seq![digit_char(n as int)]
    } else {
        decimal(n / 10).push(digit_char((n % 10) as int))
    }
}

/// The operation id for a start at `secs` seconds after the Unix epoch.
pub open spec fn operation_id_for(secs: nat) -> Seq<char> {
    seq!['o', 'p', '_'] + decimal(secs)
}

fn push_decimal(out: &mut String, n: u64)
    ensures
        final(out)@ == old(out)@ + decimal(n as nat),
    decreases n,
{
    if n >= 10 {
        push_decimal(out, n / 10);
    }
    let d = (n % 10) as usize;
    let digits = "0123456789";
    proof {
        reveal_strlit("0123456789");
    }
    out.append(digits.substring_char(d, d + 1));
    assert(digits@.subrange(d as int, d + 1) =~= seq![digit_char(d as int)]);
}

/// The operation id `op_<secs>`.
pub fn operation_id_at(secs: u64) -> (r: String)
    ensures
        r@ == operation_id_for(secs as nat),
{
    proof {
        reveal_strlit("op_");
    }
    let mut r = owned("op_");
    push_decimal(&mut r, secs);
    assert(r@ =~= operation_id_for(secs as nat));
    r
}

/// A fresh operation id from the clock: `op_` and the whole seconds since
/// the Unix epoch (0 for a clock set before it). Two operations started in
/// the same second get the same id and their records merge.
pub fn generate_operation_id() -> (r: String)
    ensures
        exists|secs: nat| r@ == operation_id_for(secs),
{
    let now = now_micros();
    let secs = (now / 1_000_000) as u64;
    operation_id_at(secs)
}

fn copy_record(r: &RenameRecord) -> (c: RenameRecord)
    ensures
        c@ == r@,
{
    RenameRecord {
        id: r.id,
        timestamp: r.timestamp,
        old_path: copy_string(&r.old_path),
        new_path: copy_string(&r.new_path),
        directory: copy_string(&r.directory),
        prefix_removed: copy_string(&r.prefix_removed),
        operation_id: copy_string(&r.operation_id),
    }
}

proof fn lemma_records_push(v: Seq<RenameRecord>, r: RenameRecord)
    ensures
        records_view(v.push(r)) == records_view(v).push(r@),
{
    assert(records_view(v.push(r)) =~= records_view(v).push(r@));
}

impl RenameDatabase {
    /// The ledger's invariant, `ledger_wf` of its view.
    pub open spec fn spec_wf(&self) -> bool {
        ledger_wf(self@)
    }

    /// An empty ledger stored at `db_path`.
    pub fn new(db_path: String) -> (r: Self)
        ensures
            r@.db_path == db_path@,
            r@.records.len() == 0,
            r@.next_id == 1,
            r.spec_wf(),
    {
        let r = RenameDatabase { db_path, records: Vec::new(), next_id: 1 };
        assert(r@.records =~= Seq::<RecordView>::empty());
        r
    }

    /// A ledger holding records read back from its store, in their order.
    /// `None` when a record id is not positive or is the largest `i64`.
    pub fn from_records(db_path: String, records: Vec<RenameRecord>) -> (r: Option<Self>)
        ensures
            r is Some <==> forall|i: int|
                0 <= i < records@.len() ==> 1 <= #[trigger] records@[i].id < i64::MAX,
            r matches Some(l) ==> (l@.db_path == db_path@ && l@.records == records_view(records@)
                && l.spec_wf()),
    {
        let mut max_id: i64 = 0;
        let mut i: usize = 0;
        while i < records.len()
            invariant
                i <= records@.len(),
                0 <= max_id < i64::MAX,
                forall|j: int| 0 <= j < i ==> 1 <= #[trigger] records@[j].id <= max_id,
            decreases records.len() - i,
        {
            let id = records[i].id;
            if id < 1 || id == i64::MAX {
                return None;
            }
            if id > max_id {
                max_id = id;
            }
            i += 1;
        }
        let l = RenameDatabase { db_path, records, next_id: max_id + 1 };
        assert forall|j: int| 0 <= j < l@.records.len() implies 1 <= #[trigger] l@.records[j].id
            < l@.next_id by {
            assert(l@.records[j] == records@[j]@);
        }
        Some(l)
    }

    /// Where the ledger is stored.
    pub fn db_path(&self) -> (r: &String)
        ensures
            r@ == self@.db_path,
    {
        &self.db_path
    }

    /// The records in the order they were appended.
    pub fn records(&self) -> (r: &Vec<RenameRecord>)
        ensures
            records_view(r@) == self@.records,
    {
        &self.records
    }

    /// Appends a record stamped `timestamp` under the next id, and returns
    /// that id; refuses when the ids are used up.
    pub fn append_record(
        &mut self,
        old_path: &str,
        new_path: &str,
        directory: &str,
        prefix_removed: &str,
        operation_id: &str,
        timestamp: i64,
    ) -> (r: Result<i64, LedgerError>)
        requires
            old(self).spec_wf(),
        ensures
            final(self).spec_wf(),
            final(self)@.db_path == old(self)@.db_path,
            old(self)@.next_id == i64::MAX ==> r == Err::<i64, LedgerError>(
                LedgerError::IdsExhausted,
            ) && final(self)@ == old(self)@,
            old(self)@.next_id < i64::MAX ==> {
                &&& r == Ok::<i64, LedgerError>(old(self)@.next_id as i64)
                &&& old(self)@.next_id > 0
                &&& forall|i: int|
                    0 <= i < old(self)@.records.len() ==> #[trigger] old(self)@.records[i].id
                        != old(self)@.next_id
                &&& final(self)@.next_id == old(self)@.next_id + 1
                &&& final(self)@.records == old(self)@.records.push(
                    RecordView {
                        id: old(self)@.next_id,
                        timestamp: timestamp as int,
                        old_path: old_path@,
                        new_path: new_path@,
                        directory: directory@,
                        prefix_removed: prefix_removed@,
                        operation_id: operation_id@,
                    },
                )
            },
    {
        if self.next_id == i64::MAX {
            return Err(LedgerError::IdsExhausted);
        }
        let id = self.next_id;
        let rec = RenameRecord {
            id,
            timestamp,
            old_path: owned(old_path),
            new_path: owned(new_path),
            directory: owned(directory),
            prefix_removed: owned(prefix_removed),
            operation_id: owned(operation_id),
        };
        proof {
            lemma_records_push(self.records@, rec);
        }
        self.records.push(rec);
        self.next_id = id + 1;
        assert(ledger_wf(self@)) by {
            assert forall|i: int| 0 <= i < self@.records.len() implies 1
                <= #[trigger] self@.records[i].id < self@.next_id by {
                if i < old(self)@.records.len() {
                    assert(self@.records[i] == old(self)@.records[i]);
                }
            }
        }
        Ok(id)
    }

    /// Appends a record of a rename stamped with the current time; see
    /// `append_record`.
    pub fn record_rename(
        &mut self,
        old_path: &str,
        new_path: &str,
        directory: &str,
        prefix_removed: &str,
        operation_id: &str,
    ) -> (r: Result<i64, LedgerError>)
        requires
            old(self).spec_wf(),
        ensures
            final(self).spec_wf(),
            final(self)@.db_path == old(self)@.db_path,
            old(self)@.next_id == i64::MAX ==> r == Err::<i64, LedgerError>(
                LedgerError::IdsExhausted,
            ) && final(self)@ == old(self)@,
            old(self)@.next_id < i64::MAX ==> {
                &&& r == Ok::<i64, LedgerError>(old(self)@.next_id as i64)
                &&& old(self)@.next_id > 0
                &&& forall|i: int|
                    0 <= i < old(self)@.records.len() ==> #[trigger] old(self)@.records[i].id
                        != old(self)@.next_id
                &&& final(self)@.next_id == old(self)@.next_id + 1
                &&& final(self)@.records.len() == old(self)@.records.len() + 1
                &&& final(self)@.records.drop_last() == old(self)@.records
                &&& final(self)@.records.last().id == old(self)@.next_id
                &&& 0 <= final(self)@.records.last().timestamp <= i64::MAX
                &&& final(self)@.records.last().old_path == old_path@
                &&& final(self)@.records.last().new_path == new_path@
                &&& final(self)@.records.last().directory == directory@
                &&& final(self)@.records.last().prefix_removed == prefix_removed@
                &&& final(self)@.records.last().operation_id == operation_id@
            },
    {
        let now = now_micros();
        let r = self.append_record(
            old_path,
            new_path,
            directory,
            prefix_removed,
            operation_id,
            now,
        );
        proof {
            if old(self)@.next_id < i64::MAX {
                assert(self@.records.drop_last() =~= old(self)@.records);
            }
        }
        r
    }

    /// The records of `operation_id`, oldest first.
    pub fn get_operation_renames(&self, operation_id: &str) -> (r: Result<
        Vec<RenameRecord>,
        LedgerError,
    >)
        ensures
            operation_history(self@.records, operation_id@).len() == 0 ==> r == Err::<
                Vec<RenameRecord>,
                LedgerError,
            >(LedgerError::OperationNotFound),
            operation_history(self@.records, operation_id@).len() > 0 ==> (r matches Ok(v)
                && records_view(v@) == operation_history(self@.records, operation_id@)),
    {
        let mine = self.records_of(operation_id);
        let sorted = sort_oldest_first(&mine);
        if sorted.len() == 0 {
            Err(LedgerError::OperationNotFound)
        } else {
            Ok(sorted)
        }
    }

    fn records_of(&self, operation_id: &str) -> (r: Vec<RenameRecord>)
        ensures
            records_view(r@) == operation_records(self@.records, operation_id@),
    {
        let ghost rv = records_view(self.records@);
        let op = owned(operation_id);
        let mut r: Vec<RenameRecord> = Vec::new();
        let mut i: usize = 0;
        assert(rv.subrange(0, 0) =~= Seq::<RecordView>::empty());
        while i < self.records.len()
            invariant
                rv == records_view(self.records@),
                op@ == operation_id@,
                i <= self.records@.len(),
                records_view(r@) == operation_records(rv.subrange(0, i as int), operation_id@),
            decreases self.records.len() - i,
        {
            assert(rv.subrange(0, i + 1).drop_last() =~= rv.subrange(0, i as int));
            assert(rv[i as int] == self.records@[i as int]@);
            if self.records[i].operation_id == op {
                let c = copy_record(&self.records[i]);
                proof {
                    lemma_records_push(r@, c);
                }
                r.push(c);
            }
            i += 1;
        }
        assert(rv.subrange(0, i as int) =~= rv);
        r
    }

    /// The records of `operation_id` in the order they are to be reversed:
    /// most recent first.
    pub fn undo_plan(&self, operation_id: &str) -> (r: Result<Vec<RenameRecord>, LedgerError>)
        ensures
            operation_history(self@.records, operation_id@).len() == 0 ==> r == Err::<
                Vec<RenameRecord>,
                LedgerError,
            >(LedgerError::OperationNotFound),
            operation_history(self@.records, operation_id@).len() > 0 ==> (r matches Ok(v)
                && records_view(v@) == operation_history(self@.records, operation_id@).reverse()),
    {
        match self.get_operation_renames(operation_id) {
            Err(e) => Err(e),
            Ok(v) => {
                let ghost hv = records_view(v@);
                let mut out: Vec<RenameRecord> = Vec::new();
                let mut i = v.len();
                assert(records_view(out@) =~= hv.subrange(i as int, hv.len() as int).reverse());
                while i > 0
                    invariant
                        hv == records_view(v@),
                        i <= v@.len(),
                        records_view(out@) == hv.subrange(i as int, hv.len() as int).reverse(),
                    decreases i,
                {
                    let c = copy_record(&v[i - 1]);
                    proof {
                        lemma_records_push(out@, c);
                    }
                    out.push(c);
                    i -= 1;
                    assert(records_view(out@) =~= hv.subrange(i as int, hv.len() as int).reverse());
                }
                assert(hv.subrange(0, hv.len() as int) =~= hv);
                Ok(out)
            },
        }
    }

    /// Up to `limit` distinct operation ids, the operation whose first record
    /// is latest first.
    pub fn get_recent_operations(&self, limit: usize) -> (r: Vec<String>)
        ensures
            strings_view(r@) == recent_operations(self@.records, limit as nat),
    {
        let ghost rs = self@.records;
        let ops = self.operation_ids();
        let ghost ov = strings_view(ops@);
        let mut timed: Vec<(String, i64)> = Vec::new();
        let mut i: usize = 0;
        while i < ops.len()
            invariant
                rs == self@.records,
                ov == strings_view(ops@),
                ov == operations_in_order(rs),
                i <= ops@.len(),
                timed_view(timed@) == ov.subrange(0, i as int).map_values(
                    |op: Seq<char>| (op, start_time(rs, op)),
                ),
            decreases ops.len() - i,
        {
            let t = self.start_of(&ops[i]);
            let e = (copy_string(&ops[i]), t);
            assert(timed_view(timed@.push(e)) =~= timed_view(timed@).push((ov[i as int], t as int)));
            timed.push(e);
            i += 1;
            assert(timed_view(timed@) =~= ov.subrange(0, i as int).map_values(
                |op: Seq<char>| (op, start_time(rs, op)),
            ));
        }
        assert(ov.subrange(0, i as int) =~= ov);
        let sorted = sort_latest_first(&timed);
        let ghost sv = timed_view(sorted@);
        let n = if sorted.len() <= limit {
            sorted.len()
        } else {
            limit
        };
        let mut r: Vec<String> = Vec::new();
        let mut j: usize = 0;
        while j < n
            invariant
                sv == timed_view(sorted@),
                n <= sorted@.len(),
                j <= n,
                strings_view(r@) == sv.subrange(0, j as int).map_values(
                    |e: (Seq<char>, int)| e.0,
                ),
            decreases n - j,
        {
            let s = copy_string(&sorted[j].0);
            proof {
                lemma_strings_push(r@, s);
            }
            r.push(s);
            j += 1;
            assert(strings_view(r@) =~= sv.subrange(0, j as int).map_values(
                |e: (Seq<char>, int)| e.0,
            ));
        }
        assert(sv.subrange(0, n as int) =~= (if sv.len() <= limit {
            sv
        } else {
            sv.subrange(0, limit as int)
        }));
        r
    }

    fn operation_ids(&self) -> (r: Vec<String>)
        ensures
            strings_view(r@) == operations_in_order(self@.records),
    {
        let ghost rv = records_view(self.records@);
        let mut r: Vec<String> = Vec::new();
        let mut i: usize = 0;
        assert(rv.subrange(0, 0) =~= Seq::<RecordView>::empty());
        while i < self.records.len()
            invariant
                rv == records_view(self.records@),
                i <= self.records@.len(),
                strings_view(r@) == operations_in_order(rv.subrange(0, i as int)),
            decreases self.records.len() - i,
        {
            assert(rv.subrange(0, i + 1).drop_last() =~= rv.subrange(0, i as int));
            assert(rv[i as int] == self.records@[i as int]@);
            if !crate::aggregate::contains_string(&r, &self.records[i].operation_id) {
                let s = copy_string(&self.records[i].operation_id);
                proof {
                    lemma_strings_push(r@, s);
                }
                r.push(s);
            }
            i += 1;
        }
        assert(rv.subrange(0, i as int) =~= rv);
        r
    }

    fn start_of(&self, op: &String) -> (t: i64)
        ensures
            t as int == start_time(self@.records, op@),
    {
        let ghost rv = records_view(self.records@);
        let mut best: Option<i64> = None;
        let mut i: usize = 0;
        while i < self.records.len()
            invariant
                rv == records_view(self.records@),
                i <= self.records@.len(),
                match best {
                    Some(t) => earliest(rv, op@, i as int) == Some(t as int),
                    None => earliest(rv, op@, i as int) is None,
                },
            decreases self.records.len() - i,
        {
            assert(rv[i as int] == self.records@[i as int]@);
            if self.records[i].operation_id == *op {
                let ts = self.records[i].timestamp;
                best = match best {
                    Some(t) => if ts < t {
                        Some(ts)
                    } else {
                        Some(t)
                    },
                    None => Some(ts),
                };
            }
            i += 1;
        }
        match best {
            Some(t) => t,
            None => 0,
        }
    }

    /// Removes every record stamped before `cutoff` (microseconds since the
    /// Unix epoch) and returns how many went.
    pub fn remove_older_than(&mut self, cutoff: i128) -> (n: usize)
        requires
            old(self).spec_wf(),
        ensures
            final(self).spec_wf(),
            final(self)@.db_path == old(self)@.db_path,
            final(self)@.next_id == old(self)@.next_id,
            final(self)@.records == records_since(old(self)@.records, cutoff as int),
            n == old(self)@.records.len() - final(self)@.records.len(),
    {
        let ghost rv = records_view(self.records@);
        let mut kept: Vec<RenameRecord> = Vec::new();
        let mut i: usize = 0;
        assert(rv.subrange(0, 0) =~= Seq::<RecordView>::empty());
        while i < self.records.len()
            invariant
                rv == records_view(self.records@),
                ledger_wf(self@),
                i <= self.records@.len(),
                records_view(kept@) == records_since(rv.subrange(0, i as int), cutoff as int),
                kept@.len() <= i,
                forall|j: int|
                    0 <= j < kept@.len() ==> 1 <= #[trigger] kept@[j].id < self.next_id,
            decreases self.records.len() - i,
        {
            assert(rv.subrange(0, i + 1).drop_last() =~= rv.subrange(0, i as int));
            assert(rv[i as int] == self.records@[i as int]@);
            if self.records[i].timestamp as i128 >= cutoff {
                let c = copy_record(&self.records[i]);
                proof {
                    lemma_records_push(kept@, c);
                    assert(1 <= self@.records[i as int].id < self@.next_id);
                }
                kept.push(c);
            }
            i += 1;
        }
        assert(rv.subrange(0, i as int) =~= rv);
        let removed = self.records.len() - kept.len();
        self.records = kept;
        assert(ledger_wf(self@)) by {
            assert forall|j: int| 0 <= j < self@.records.len() implies 1
                <= #[trigger] self@.records[j].id < self@.next_id by {
                assert(self@.records[j] == self.records@[j]@);
            }
        }
        removed
    }

    /// Removes every record older than `days` days before now and returns
    /// how many went.
    pub fn cleanup_old_records(&mut self, days: u32) -> (n: usize)
        requires
            old(self).spec_wf(),
        ensures
            final(self).spec_wf(),
            final(self)@.db_path == old(self)@.db_path,
            final(self)@.next_id == old(self)@.next_id,
            exists|now: int|
                0 <= now <= i64::MAX && final(self)@.records == records_since(
                    old(self)@.records,
                    #[trigger] retention_cutoff(now, days as int),
                ),
            n == old(self)@.records.len() - final(self)@.records.len(),
    {
        let now = now_micros();
        let cutoff = now as i128 - days as i128 * 86_400_000_000i128;
        let n = self.remove_older_than(cutoff);
        assert(cutoff as int == retention_cutoff(now as int, days as int));
        n
    }
}

pub open spec fn timed_view(v: Seq<(String, i64)>) -> Seq<(Seq<char>, int)> {
    v.map_values(|e: (String, i64)| (e.0@, e.1 as int))
}

fn sort_oldest_first(v: &Vec<RenameRecord>) -> (r: Vec<RenameRecord>)
    ensures
        records_view(r@) == oldest_first(records_view(v@)),
{
    let ghost vv = records_view(v@);
    let mut r: Vec<RenameRecord> = Vec::new();
    let mut i: usize = 0;
    assert(vv.subrange(0, 0) =~= Seq::<RecordView>::empty());
    while i < v.len()
        invariant
            vv == records_view(v@),
            i <= v@.len(),
            records_view(r@) == oldest_first(vv.subrange(0, i as int)),
        decreases v.len() - i,
    {
        assert(vv.subrange(0, i + 1).drop_last() =~= vv.subrange(0, i as int));
        let x = copy_record(&v[i]);
        let ghost rv = records_view(r@);
        let mut p: usize = 0;
        while p < r.len() && r[p].timestamp <= x.timestamp
            invariant
                rv == records_view(r@),
                p <= r@.len(),
                time_insert_pos(rv, x.timestamp as int, 0) == time_insert_pos(
                    rv,
                    x.timestamp as int,
                    p as int,
                ),
            decreases r.len() - p,
        {
            assert(rv[p as int] == r@[p as int]@);
            p += 1;
        }
        proof {
            if p < r@.len() {
                assert(rv[p as int] == r@[p as int]@);
            }
        }
        assert(records_view(r@.insert(p as int, x)) =~= records_view(r@).insert(p as int, x@));
        r.insert(p, x);
        i += 1;
    }
    assert(vv.subrange(0, i as int) =~= vv);
    r
}

fn sort_latest_first(v: &Vec<(String, i64)>) -> (r: Vec<(String, i64)>)
    ensures
        timed_view(r@) == latest_first(timed_view(v@)),
{
    let ghost vv = timed_view(v@);
    let mut r: Vec<(String, i64)> = Vec::new();
    let mut i: usize = 0;
    assert(vv.subrange(0, 0) =~= Seq::<(Seq<char>, int)>::empty());
    while i < v.len()
        invariant
            vv == timed_view(v@),
            i <= v@.len(),
            timed_view(r@) == latest_first(vv.subrange(0, i as int)),
        decreases v.len() - i,
    {
        assert(vv.subrange(0, i + 1).drop_last() =~= vv.subrange(0, i as int));
        let x = (copy_string(&v[i].0), v[i].1);
        let ghost rv = timed_view(r@);
        let mut p: usize = 0;
        while p < r.len() && r[p].1 >= x.1
            invariant
                rv == timed_view(r@),
                p <= r@.len(),
                start_insert_pos(rv, x.1 as int, 0) == start_insert_pos(rv, x.1 as int, p as int),
            decreases r.len() - p,
        {
            p += 1;
        }
        assert(timed_view(r@.insert(p as int, x)) =~= timed_view(r@).insert(
            p as int,
            (x.0@, x.1 as int),
        ));
        r.insert(p, x);
        i += 1;
    }
    assert(vv.subrange(0, i as int) =~= vv);
    r
}


/// A recorded rename may be reversed when its new path exists and its old
/// path does not.
pub open spec fn may_undo(new_exists: bool, old_exists: bool) -> bool {
    new_exists && !old_exists
}

/// Decides one step of reversing an operation, from whether the record's
/// new and old paths exist now.
pub fn undo_allowed(new_exists: bool, old_exists: bool) -> (r: bool)
    ensures
        r == may_undo(new_exists, old_exists),
{
    new_exists && !old_exists
}

/// One step of an undo's tally: a record whose move back was allowed and
/// done counts as reversed, any other as refused.
pub open spec fn tally_step(t: (nat, nat), new_exists: bool, old_exists: bool, moved: bool) -> (
    nat,
    nat,
) {
    if may_undo(new_exists, old_exists) && moved {
        (t.0 + 1, t.1)
    } else {
        (t.0, t.1 + 1)
    }
}

/// Running counts of an undo: records reversed and records refused.
#[derive(Debug, Clone, Copy)]
pub struct UndoTally {
    pub succeeded: usize,
    pub failed: usize,
}

impl UndoTally {
    /// No record counted yet.
    pub fn new() -> (r: Self)
        ensures
            r.succeeded == 0 && r.failed == 0,
    {
        UndoTally { succeeded: 0, failed: 0 }
    }

    /// Counts one record of an undo, from whether its new and old paths
    /// existed and whether the move back was done: one step of `undo_run`.
    pub fn record(&mut self, new_exists: bool, old_exists: bool, moved: bool)
        requires
            old(self).succeeded < usize::MAX,
            old(self).failed < usize::MAX,
        ensures
            (final(self).succeeded as nat, final(self).failed as nat) == tally_step(
                (old(self).succeeded as nat, old(self).failed as nat),
                new_exists,
                old_exists,
                moved,
            ),
    {
        if undo_allowed(new_exists, old_exists) && moved {
            self.succeeded = self.succeeded + 1;
        } else {
            self.failed = self.failed + 1;
        }
    }
}

/// Reverses `steps` in order over the set of existing paths, taking each
/// allowed move back to be done; gives the paths that exist afterwards and
/// the numbers of reversed and of refused records, each step counted by
/// `tally_step`.
pub open spec fn undo_run(steps: Seq<RecordView>, present: Set<Seq<char>>) -> (
    Set<Seq<char>>,
    nat,
    nat,
)
    decreases steps.len(),
{
    if steps.len() == 0 {
        (present, 0, 0)
    } else {
        let r = steps[0];
        let new_exists = present.contains(r.new_path);
        let old_exists = present.contains(r.old_path);
        let c = tally_step((0, 0), new_exists, old_exists, true);
        let next = if may_undo(new_exists, old_exists) {
            present.remove(r.new_path).insert(r.old_path)
        } else {
            present
        };
        let t = undo_run(steps.drop_first(), next);
        (t.0, t.1 + c.0, t.2 + c.1)
    }
}

/// The paths that exist after the renames of `recs`, in order.
pub open spec fn apply_renames(recs: Seq<RecordView>, present: Set<Seq<char>>) -> Set<Seq<char>>
    decreases recs.len(),
{
    if recs.len() == 0 {
        present
    } else {
        apply_renames(recs.drop_last(), present).remove(recs.last().old_path).insert(
            recs.last().new_path,
        )
    }
}

/// No path is both renamed from and to, and no two records share a path.
pub open spec fn separate_paths(recs: Seq<RecordView>) -> bool {
    &&& forall|i: int, j: int|
        0 <= i < recs.len() && 0 <= j < recs.len() ==> recs[i].old_path != recs[j].new_path
    &&& forall|i: int, j: int|
        0 <= i < recs.len() && 0 <= j < recs.len() && i != j ==> recs[i].old_path
            != recs[j].old_path && recs[i].new_path != recs[j].new_path
}

/// Every old path exists and no new path does.
pub open spec fn renamable(recs: Seq<RecordView>, present: Set<Seq<char>>) -> bool {
    forall|i: int|
        0 <= i < recs.len() ==> present.contains(#[trigger] recs[i].old_path) && !present.contains(
            recs[i].new_path,
        )
}

proof fn lemma_untouched(recs: Seq<RecordView>, present: Set<Seq<char>>, x: Seq<char>)
    requires
        forall|i: int| 0 <= i < recs.len() ==> (#[trigger] recs[i]).old_path != x && recs[i].new_path != x,
    ensures
        apply_renames(recs, present).contains(x) == present.contains(x),
    decreases recs.len(),
{
    if recs.len() > 0 {
        assert forall|i: int| 0 <= i < recs.drop_last().len() implies (#[trigger] recs.drop_last()[i]).old_path
            != x && recs.drop_last()[i].new_path != x by {
            assert(recs.drop_last()[i] == recs[i]);
        }
        lemma_untouched(recs.drop_last(), present, x);
        assert(recs[recs.len() - 1].old_path != x);
    }
}

proof fn lemma_undo_refused(steps: Seq<RecordView>, present: Set<Seq<char>>)
    requires
        forall|i: int| 0 <= i < steps.len() ==> !present.contains(#[trigger] steps[i].new_path),
    ensures
        undo_run(steps, present) == (present, 0nat, steps.len()),
    decreases steps.len(),
{
    if steps.len() > 0 {
        assert(!present.contains(steps[0].new_path));
        assert forall|i: int| 0 <= i < steps.drop_first().len() implies !present.contains(
            #[trigger] steps.drop_first()[i].new_path,
        ) by {
            assert(steps.drop_first()[i] == steps[i + 1]);
        }
        lemma_undo_refused(steps.drop_first(), present);
    }
}

proof fn lemma_undo_after_renames(recs: Seq<RecordView>, present: Set<Seq<char>>)
    requires
        separate_paths(recs),
        renamable(recs, present),
    ensures
        undo_run(recs.reverse(), apply_renames(recs, present)) == (present, recs.len(), 0nat),
    decreases recs.len(),
{
    if recs.len() > 0 {
        let n = recs.len() - 1;
        let init = recs.drop_last();
        let last = recs[n];
        assert(separate_paths(init)) by {
            assert forall|i: int, j: int| 0 <= i < init.len() && 0 <= j < init.len() implies init[i].old_path
                != init[j].new_path by {
                assert(init[i] == recs[i] && init[j] == recs[j]);
            }
            assert forall|i: int, j: int|
                0 <= i < init.len() && 0 <= j < init.len() && i != j implies init[i].old_path
                != init[j].old_path && init[i].new_path != init[j].new_path by {
                assert(init[i] == recs[i] && init[j] == recs[j]);
            }
        }
        assert(renamable(init, present)) by {
            assert forall|i: int| 0 <= i < init.len() implies present.contains(
                #[trigger] init[i].old_path,
            ) && !present.contains(init[i].new_path) by {
                assert(init[i] == recs[i]);
            }
        }
        lemma_undo_after_renames(init, present);
        let a = apply_renames(init, present);
        assert forall|i: int| 0 <= i < init.len() implies (#[trigger] init[i]).old_path
            != last.old_path && init[i].new_path != last.old_path by {
            assert(init[i] == recs[i]);
        }
        lemma_untouched(init, present, last.old_path);
        assert forall|i: int| 0 <= i < init.len() implies (#[trigger] init[i]).old_path
            != last.new_path && init[i].new_path != last.new_path by {
            assert(init[i] == recs[i]);
        }
        lemma_untouched(init, present, last.new_path);
        assert(present.contains(recs[n].old_path));
        assert(last.old_path != last.new_path);
        let after = a.remove(last.old_path).insert(last.new_path);
        assert(after.remove(last.new_path).insert(last.old_path) =~= a);
        assert(recs.reverse()[0] == last);
        assert(recs.reverse().drop_first() =~= init.reverse());
    }
}

/// Reversing a single recorded rename, with nothing changed on disk since,
/// moves the file back: the old path exists again and the new one does not.
pub proof fn lemma_undo_round_trip(rec: RecordView, present: Set<Seq<char>>)
    requires
        present.contains(rec.old_path),
        !present.contains(rec.new_path),
        rec.old_path != rec.new_path,
    ensures
        undo_run(seq![rec], apply_renames(seq![rec], present)) == (present, 1nat, 0nat),
        undo_run(seq![rec], apply_renames(seq![rec], present)).0.contains(rec.old_path),
        !undo_run(seq![rec], apply_renames(seq![rec], present)).0.contains(rec.new_path),
{
    let recs = seq![rec];
    assert(recs.reverse() =~= recs);
    assert(separate_paths(recs));
    assert(renamable(recs, present));
    lemma_undo_after_renames(recs, present);
}

/// Reversing an operation twice: the first pass reverses every one of its
/// `n` renames and the second refuses all `n`, when the renames touched
/// separate paths and nothing changed on disk in between. `history` is the
/// operation's records oldest first; `undo_plan` hands them out reversed.
pub proof fn lemma_second_undo_refused(history: Seq<RecordView>, present: Set<Seq<char>>)
    requires
        separate_paths(history),
        renamable(history, present),
    ensures
        undo_run(history.reverse(), apply_renames(history, present)) == (
            present,
            history.len(),
            0nat,
        ),
        undo_run(history.reverse(), present) == (present, 0nat, history.len()),
{
    lemma_undo_after_renames(history, present);
    assert forall|i: int| 0 <= i < history.reverse().len() implies !present.contains(
        #[trigger] history.reverse()[i].new_path,
    ) by {
        assert(history.reverse()[i] == history[history.len() - 1 - i]);
    }
    lemma_undo_refused(history.reverse(), present);
}


proof fn lemma_time_insert_pos_bounds(s: Seq<RecordView>, t: int, i: int)
    requires
        0 <= i <= s.len(),
    ensures
        i <= time_insert_pos(s, t, i) <= s.len(),
        forall|m: int| i <= m < time_insert_pos(s, t, i) ==> s[m].timestamp <= t,
        time_insert_pos(s, t, i) < s.len() ==> s[time_insert_pos(s, t, i)].timestamp > t,
    decreases s.len() - i,
{
    if i < s.len() && s[i].timestamp <= t {
        lemma_time_insert_pos_bounds(s, t, i + 1);
    }
}

proof fn lemma_oldest_first_ordered(s: Seq<RecordView>)
    ensures
        oldest_first(s).len() == s.len(),
        forall|a: int, b: int|
            0 <= a < b < oldest_first(s).len() ==> (#[trigger] oldest_first(s)[a]).timestamp
                <= (#[trigger] oldest_first(s)[b]).timestamp,
        forall|j: int| 0 <= j < oldest_first(s).len() ==> s.contains(#[trigger] oldest_first(s)[j]),
    decreases s.len(),
{
    if s.len() > 0 {
        let init = s.drop_last();
        lemma_oldest_first_ordered(init);
        let r = oldest_first(init);
        let x = s.last();
        let p = time_insert_pos(r, x.timestamp, 0);
        lemma_time_insert_pos_bounds(r, x.timestamp, 0);
        let t = r.insert(p, x);
        assert forall|a: int, b: int| 0 <= a < b < t.len() implies (#[trigger] t[a]).timestamp
            <= (#[trigger] t[b]).timestamp by {
            if b < p {
                assert(t[a] == r[a] && t[b] == r[b]);
            } else if b == p {
                assert(t[a] == r[a]);
            } else if a < p {
                assert(t[a] == r[a] && t[b] == r[b - 1]);
                if b - 1 > p {
                    assert(r[p].timestamp <= r[b - 1].timestamp);
                }
            } else if a == p {
                assert(t[b] == r[b - 1]);
                if b - 1 > p {
                    assert(r[p].timestamp <= r[b - 1].timestamp);
                }
            } else {
                assert(t[a] == r[a - 1] && t[b] == r[b - 1]);
            }
        }
        assert forall|j: int| 0 <= j < t.len() implies s.contains(#[trigger] t[j]) by {
            if j == p {
                assert(t[j] == s[s.len() - 1]);
            } else {
                let jj = if j < p {
                    j
                } else {
                    j - 1
                };
                assert(t[j] == r[jj]);
                let m = choose|m: int| 0 <= m < init.len() && init[m] == r[jj];
                assert(s[m] == init[m]);
            }
        }
    }
}

proof fn lemma_operation_records_members(rs: Seq<RecordView>, op: Seq<char>)
    ensures
        forall|j: int|
            0 <= j < operation_records(rs, op).len() ==> (#[trigger] operation_records(
                rs,
                op,
            )[j]).operation_id == op && rs.contains(operation_records(rs, op)[j]),
    decreases rs.len(),
{
    if rs.len() > 0 {
        let init = rs.drop_last();
        lemma_operation_records_members(init, op);
        let r0 = operation_records(init, op);
        let r = operation_records(rs, op);
        assert forall|j: int| 0 <= j < r.len() implies (#[trigger] r[j]).operation_id == op
            && rs.contains(r[j]) by {
            if j < r0.len() {
                assert(r[j] == r0[j]);
                let m = choose|m: int| 0 <= m < init.len() && init[m] == r0[j];
                assert(rs[m] == init[m]);
            } else {
                assert(r[j] == rs[rs.len() - 1]);
            }
        }
    }
}

/// An operation's history holds records of that operation only, taken from
/// the ledger, oldest first; `undo_plan` hands them out newest first.
pub proof fn lemma_operation_history_ordered(rs: Seq<RecordView>, op: Seq<char>)
    ensures
        forall|j: int|
            0 <= j < operation_history(rs, op).len() ==> (#[trigger] operation_history(
                rs,
                op,
            )[j]).operation_id == op && rs.contains(operation_history(rs, op)[j]),
        forall|a: int, b: int|
            0 <= a < b < operation_history(rs, op).len() ==> (#[trigger] operation_history(
                rs,
                op,
            )[a]).timestamp <= (#[trigger] operation_history(rs, op)[b]).timestamp,
{
    let recs = operation_records(rs, op);
    lemma_operation_records_members(rs, op);
    lemma_oldest_first_ordered(recs);
    let h = operation_history(rs, op);
    assert forall|j: int| 0 <= j < h.len() implies (#[trigger] h[j]).operation_id == op
        && rs.contains(h[j]) by {
        assert(recs.contains(h[j]));
        let m = choose|m: int| 0 <= m < recs.len() && recs[m] == h[j];
        assert(recs[m].operation_id == op && rs.contains(recs[m]));
    }
}


proof fn lemma_start_insert_pos_bounds(s: Seq<(Seq<char>, int)>, t: int, i: int)
    requires
        0 <= i <= s.len(),
    ensures
        i <= start_insert_pos(s, t, i) <= s.len(),
        forall|m: int| i <= m < start_insert_pos(s, t, i) ==> s[m].1 >= t,
        start_insert_pos(s, t, i) < s.len() ==> s[start_insert_pos(s, t, i)].1 < t,
    decreases s.len() - i,
{
    if i < s.len() && s[i].1 >= t {
        lemma_start_insert_pos_bounds(s, t, i + 1);
    }
}

/// `latest_first` orders by decreasing start time and keeps the length.
pub proof fn lemma_latest_first_ordered(s: Seq<(Seq<char>, int)>)
    ensures
        latest_first(s).len() == s.len(),
        forall|a: int, b: int|
            0 <= a < b < latest_first(s).len() ==> (#[trigger] latest_first(s)[a]).1
                >= (#[trigger] latest_first(s)[b]).1,
    decreases s.len(),
{
    if s.len() > 0 {
        let init = s.drop_last();
        lemma_latest_first_ordered(init);
        let r = latest_first(init);
        let x = s.last();
        let p = start_insert_pos(r, x.1, 0);
        lemma_start_insert_pos_bounds(r, x.1, 0);
        let t = r.insert(p, x);
        assert forall|a: int, b: int| 0 <= a < b < t.len() implies (#[trigger] t[a]).1 >= (
        #[trigger] t[b]).1 by {
            if b < p {
                assert(t[a] == r[a] && t[b] == r[b]);
            } else if b == p {
                assert(t[a] == r[a]);
            } else if a < p {
                assert(t[a] == r[a] && t[b] == r[b - 1]);
                if b - 1 > p {
                    assert(r[p].1 >= r[b - 1].1);
                }
            } else if a == p {
                assert(t[b] == r[b - 1]);
                if b - 1 > p {
                    assert(r[p].1 >= r[b - 1].1);
                }
            } else {
                assert(t[a] == r[a - 1] && t[b] == r[b - 1]);
            }
        }
    }
}

} // verus!
