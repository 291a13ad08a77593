//! The binder protocol: what is written to the driver, and what its answers say.
use vstd::prelude::*;

use crate::parcel;
use crate::parcel::ParcelReader;

verus! {

broadcast use vstd::string::group_string_axioms;

/// Command: send a transaction.
pub const BC_TRANSACTION: u32 = 0x40406300;

/// Command: give a received buffer back.
pub const BC_FREE_BUFFER: u32 = 0x40086303;

/// Command: this thread waits for transactions.
pub const BC_ENTER_LOOPER: u32 = 0x630c;

/// Answer: a transaction has come in.
pub const BR_TRANSACTION: u32 = 0x80407202;

/// Answer: the reply to a transaction.
pub const BR_REPLY: u32 = 0x80407203;

/// Answer: the receiver is dead.
pub const BR_DEAD_REPLY: u32 = 0x7205;

/// Answer: the transaction has failed.
pub const BR_FAILED_REPLY: u32 = 0x720f;

/// A reference to a node of another process.
pub const BINDER_TYPE_HANDLE: u32 = 2;

/// The handle of the service manager.
pub const SVC_MGR_HANDLE: u32 = 0;

/// The call that tells a process observer of foreground activities.
pub const TX_ON_FG_ACTIVITIES_CHANGED: u32 = 2;

/// The bytes of a transaction as the driver lays it out.
pub const TRANSACTION_SIZE: usize = 64;

/// A transaction as the driver lays it out.
#[derive(Clone, Copy, Debug, PartialEq, Eq, Structural)]
pub struct Transaction {
    pub target: u64,
    pub cookie: u64,
    pub code: u32,
    pub flags: u32,
    pub sender_pid: i32,
    pub sender_euid: u32,
    pub data_size: u64,
    pub offsets_size: u64,
    pub buffer: u64,
    pub offsets: u64,
}

/// The bytes of a transaction.
pub open spec fn transaction_bytes(t: Transaction) -> Seq<u8> {
    parcel::le_bytes(t.target as nat, 8) + parcel::le_bytes(t.cookie as nat, 8) + parcel::le_bytes(
        t.code as nat,
        4,
    ) + parcel::le_bytes(t.flags as nat, 4) + parcel::le_bytes(
        parcel::bits32(t.sender_pid as int),
        4,
    ) + parcel::le_bytes(t.sender_euid as nat, 4) + parcel::le_bytes(t.data_size as nat, 8)
        + parcel::le_bytes(t.offsets_size as nat, 8) + parcel::le_bytes(t.buffer as nat, 8)
        + parcel::le_bytes(t.offsets as nat, 8)
}

/// The transaction that stands at `p`.
pub open spec fn transaction_at(b: Seq<u8>, p: int) -> Transaction {
    Transaction {
        target: parcel::le_at(b, p, 8) as u64,
        cookie: parcel::le_at(b, p + 8, 8) as u64,
        code: parcel::le_at(b, p + 16, 4) as u32,
        flags: parcel::le_at(b, p + 20, 4) as u32,
        sender_pid: parcel::signed32(parcel::le_at(b, p + 24, 4)) as i32,
        sender_euid: parcel::le_at(b, p + 28, 4) as u32,
        data_size: parcel::le_at(b, p + 32, 8) as u64,
        offsets_size: parcel::le_at(b, p + 40, 8) as u64,
        buffer: parcel::le_at(b, p + 48, 8) as u64,
        offsets: parcel::le_at(b, p + 56, 8) as u64,
    }
}

/// Reads the transaction at `p`.
fn read_transaction(b: &Vec<u8>, p: usize) -> (r: Transaction)
    requires
        p + 64 <= b.len(),
    ensures
        r == transaction_at(b@, p as int),
{
    Transaction {
        target: parcel::u64_at(b, p),
        cookie: parcel::u64_at(b, p + 8),
        code: parcel::u32_at(b, p + 16),
        flags: parcel::u32_at(b, p + 20),
        sender_pid: parcel::signed_of(parcel::u32_at(b, p + 24)),
        sender_euid: parcel::u32_at(b, p + 28),
        data_size: parcel::u64_at(b, p + 32),
        offsets_size: parcel::u64_at(b, p + 40),
        buffer: parcel::u64_at(b, p + 48),
        offsets: parcel::u64_at(b, p + 56),
    }
}

/// Appends a transaction.
fn push_transaction(v: &mut Vec<u8>, t: &Transaction)
    ensures
        final(v)@ == old(v)@ + transaction_bytes(*t),
{
    let ghost before = v@;
    parcel::push_u64(v, t.target);
    parcel::push_u64(v, t.cookie);
    parcel::push_u32(v, t.code);
    parcel::push_u32(v, t.flags);
    parcel::push_i32(v, t.sender_pid);
    parcel::push_u32(v, t.sender_euid);
    parcel::push_u64(v, t.data_size);
    parcel::push_u64(v, t.offsets_size);
    parcel::push_u64(v, t.buffer);
    parcel::push_u64(v, t.offsets);
    proof {
        assert(v@ =~= before + transaction_bytes(*t));
    }
}

/// Where a field of a transaction lies among its bytes, and what it holds.
proof fn lemma_field(b: Seq<u8>, p: int, pre: Seq<u8>, x: nat, n: nat, post: Seq<u8>)
    requires
        0 <= p,
        p + (pre + parcel::le_bytes(x, n) + post).len() <= b.len(),
        parcel::le_bytes(x, n).len() == n,
        b.subrange(p, p + (pre + parcel::le_bytes(x, n) + post).len()) == pre + parcel::le_bytes(
            x,
            n,
        ) + post,
        x < parcel::past(n),
    ensures
        parcel::le_at(b, p + pre.len(), n) == x,
{
    let all = pre + parcel::le_bytes(x, n) + post;
    let q = p + pre.len();
    let s = b.subrange(p, p + all.len());
    assert(b.subrange(q, q + n) =~= s.subrange(pre.len() as int, (pre.len() + n) as int));
    assert(s.subrange(pre.len() as int, (pre.len() + n) as int) =~= parcel::le_bytes(x, n));
    parcel::number_reads_back(b, q, x, n);
}

/// A transaction that was written is read back, wherever it stands.
pub proof fn transaction_reads_back(b: Seq<u8>, p: int, t: Transaction)
    requires
        0 <= p,
        p + 64 <= b.len(),
        b.subrange(p, p + 64) == transaction_bytes(t),
    ensures
        transaction_at(b, p) == t,
{
    assert(parcel::past(8) == 0x1_0000_0000_0000_0000 && parcel::past(4) == 0x1_0000_0000) by {
        reveal_with_fuel(parcel::past, 9);
    }
    parcel::lemma_le_bytes_len(t.target as nat, 8);
    parcel::lemma_le_bytes_len(t.cookie as nat, 8);
    parcel::lemma_le_bytes_len(t.code as nat, 4);
    parcel::lemma_le_bytes_len(t.flags as nat, 4);
    parcel::lemma_le_bytes_len(parcel::bits32(t.sender_pid as int), 4);
    parcel::lemma_le_bytes_len(t.sender_euid as nat, 4);
    parcel::lemma_le_bytes_len(t.data_size as nat, 8);
    parcel::lemma_le_bytes_len(t.offsets_size as nat, 8);
    parcel::lemma_le_bytes_len(t.buffer as nat, 8);
    parcel::lemma_le_bytes_len(t.offsets as nat, 8);
    let all = transaction_bytes(t);
    assert(all.len() == 64);
    assert(all =~= all.take(0) + parcel::le_bytes(t.target as nat, 8) + all.skip(8));
    lemma_field(b, p, all.take(0), t.target as nat, 8, all.skip(8));
    assert(all =~= all.take(8) + parcel::le_bytes(t.cookie as nat, 8) + all.skip(16));
    lemma_field(b, p, all.take(8), t.cookie as nat, 8, all.skip(16));
    assert(all =~= all.take(16) + parcel::le_bytes(t.code as nat, 4) + all.skip(20));
    lemma_field(b, p, all.take(16), t.code as nat, 4, all.skip(20));
    assert(all =~= all.take(20) + parcel::le_bytes(t.flags as nat, 4) + all.skip(24));
    lemma_field(b, p, all.take(20), t.flags as nat, 4, all.skip(24));
    let pid = parcel::bits32(t.sender_pid as int);
    assert(all =~= all.take(24) + parcel::le_bytes(pid, 4) + all.skip(28));
    lemma_field(b, p, all.take(24), pid, 4, all.skip(28));
    assert(all =~= all.take(28) + parcel::le_bytes(t.sender_euid as nat, 4) + all.skip(32));
    lemma_field(b, p, all.take(28), t.sender_euid as nat, 4, all.skip(32));
    assert(all =~= all.take(32) + parcel::le_bytes(t.data_size as nat, 8) + all.skip(40));
    lemma_field(b, p, all.take(32), t.data_size as nat, 8, all.skip(40));
    assert(all =~= all.take(40) + parcel::le_bytes(t.offsets_size as nat, 8) + all.skip(48));
    lemma_field(b, p, all.take(40), t.offsets_size as nat, 8, all.skip(48));
    assert(all =~= all.take(48) + parcel::le_bytes(t.buffer as nat, 8) + all.skip(56));
    lemma_field(b, p, all.take(48), t.buffer as nat, 8, all.skip(56));
    assert(all =~= all.take(56) + parcel::le_bytes(t.offsets as nat, 8) + all.skip(64));
    lemma_field(b, p, all.take(56), t.offsets as nat, 8, all.skip(64));
}

/// What is written to send a transaction to `handle`: the data is
/// `data_size` bytes at `data`, the object offsets are `count` numbers at
/// `offsets`.
pub fn transaction_command(
    handle: u32,
    code: u32,
    data: u64,
    data_size: u64,
    offsets: u64,
    count: u64,
) -> (r: Vec<u8>)
    requires
        count * 8 <= u64::MAX,
    ensures
        r@ == parcel::le_bytes(BC_TRANSACTION as nat, 4) + transaction_bytes(
            (Transaction {
                target: handle as u64,
                cookie: 0,
                code,
                flags: 0,
                sender_pid: 0,
                sender_euid: 0,
                data_size,
                offsets_size: (count * 8) as u64,
                buffer: data,
                offsets,
            }),
        ),
{
    let mut r: Vec<u8> = Vec::new();
    parcel::push_u32(&mut r, BC_TRANSACTION);
    let t = Transaction {
        target: handle as u64,
        cookie: 0,
        code,
        flags: 0,
        sender_pid: 0,
        sender_euid: 0,
        data_size,
        offsets_size: count * 8,
        buffer: data,
        offsets,
    };
    push_transaction(&mut r, &t);
    proof {
        assert(r@ =~= parcel::le_bytes(BC_TRANSACTION as nat, 4) + transaction_bytes(t));
    }
    r
}

/// What is written to give a received buffer back.
pub fn free_buffer(ptr: u64) -> (r: Vec<u8>)
    ensures
        r@ == parcel::le_bytes(BC_FREE_BUFFER as nat, 4) + parcel::le_bytes(ptr as nat, 8),
{
    let mut r: Vec<u8> = Vec::new();
    parcel::push_u32(&mut r, BC_FREE_BUFFER);
    parcel::push_u64(&mut r, ptr);
    proof {
        assert(r@ =~= parcel::le_bytes(BC_FREE_BUFFER as nat, 4) + parcel::le_bytes(ptr as nat, 8));
    }
    r
}

/// What is written before a thread waits for transactions.
pub fn enter_looper() -> (r: Vec<u8>)
    ensures
        r@ == parcel::le_bytes(BC_ENTER_LOOPER as nat, 4),
{
    let mut r: Vec<u8> = Vec::new();
    parcel::push_u32(&mut r, BC_ENTER_LOOPER);
    proof {
        assert(r@ =~= parcel::le_bytes(BC_ENTER_LOOPER as nat, 4));
    }
    r
}

/// What the answers of the driver come to.
#[derive(Clone, Copy, Debug, PartialEq, Eq, Structural)]
pub enum ReplyStep {
    /// A reply has come; its data is still to be fetched.
    Reply(Transaction),
    /// There will be no reply.
    Failed,
    /// Nothing yet.
    Wait,
}

/// The first answer that decides, from `p` on, and where reading goes on.
pub open spec fn reply_scan(b: Seq<u8>, p: int) -> (ReplyStep, int)
    decreases b.len() - p,
{
    if p + 4 > b.len() {
        (ReplyStep::Wait, p)
    } else {
        let cmd = parcel::le_at(b, p, 4);
        if cmd == BR_DEAD_REPLY || cmd == BR_FAILED_REPLY {
            (ReplyStep::Failed, p + 4)
        } else if cmd == BR_REPLY {
            if p + 68 > b.len() {
                (ReplyStep::Wait, p)
            } else {
                (ReplyStep::Reply(transaction_at(b, p + 4)), p + 68)
            }
        } else {
            reply_scan(b, p + 4)
        }
    }
}

/// How long a reply is waited for, in milliseconds.
pub const REPLY_TIMEOUT_MS: u64 = 3000;

/// A synchronous transaction that waits for its reply.
pub struct Transact {
    /// Answers that have been read and not looked at.
    pub pending: Vec<u8>,
    /// Received buffers that are to be given back.
    pub free: Vec<u64>,
}

impl Transact {
    /// Nothing has been read.
    pub fn new() -> (r: Transact)
        ensures
            r.pending@ == Seq::<u8>::empty(),
            r.free@ == Seq::<u64>::empty(),
    {
        Transact { pending: Vec::new(), free: Vec::new() }
    }

    /// Takes up answers that were read.
    pub fn feed(&mut self, bytes: &Vec<u8>)
        ensures
            final(self).pending@ == old(self).pending@ + bytes@,
            final(self).free == old(self).free,
    {
        let ghost before = self.pending@;
        let mut i: usize = 0;
        proof {
            assert(self.pending@ =~= before + bytes@.take(0));
        }
        while i < bytes.len()
            invariant
                i <= bytes.len(),
                self.pending@ == before + bytes@.take(i as int),
                self.free == old(self).free,
            decreases bytes.len() - i,
        {
            self.pending.push(bytes[i]);
            proof {
                assert(self.pending@ =~= before + bytes@.take(i + 1));
            }
            i += 1;
        }
        proof {
            assert(bytes@.take(i as int) =~= bytes@);
        }
    }

    /// Whether a transaction that was sent at `started` is not waited for any
    /// longer at `now`, both in milliseconds.
    pub fn gives_up(&self, started: u64, now: u64) -> (r: bool)
        ensures
            r == (now - started >= REPLY_TIMEOUT_MS),
    {
        now >= started && now - started >= REPLY_TIMEOUT_MS
    }

    /// Looks at the answers up to the first that decides, and drops what was
    /// looked at.
    pub fn step(&mut self) -> (r: ReplyStep)
        ensures
            r == reply_scan(old(self).pending@, 0).0,
            final(self).pending@ == old(self).pending@.skip(
                reply_scan(old(self).pending@, 0).1,
            ),
            final(self).free@ == (match r {
                ReplyStep::Reply(t) => if t.buffer != 0 {
                    old(self).free@.push(t.buffer)
                } else {
                    old(self).free@
                },
                _ => old(self).free@,
            }),
    {
        let n: usize = self.pending.len();
        let mut p: usize = 0;
        let mut r: ReplyStep = ReplyStep::Wait;
        let mut go: bool = true;
        let ghost all = self.pending@;
        while go && n - p >= 4
            invariant
                p <= n,
                n == self.pending.len(),
                self.pending@ == all,
                self.free@ == old(self).free@,
                go ==> r == ReplyStep::Wait && reply_scan(all, 0) == reply_scan(all, p as int),
                !go ==> reply_scan(all, 0) == (r, p as int),
            decreases n - p + (if go { 1int } else { 0 }),
        {
            let cmd: u32 = parcel::u32_at(&self.pending, p);
            if cmd == BR_DEAD_REPLY || cmd == BR_FAILED_REPLY {
                r = ReplyStep::Failed;
                p = p + 4;
                go = false;
            } else if cmd == BR_REPLY {
                if n - p >= 68 {
                    r = ReplyStep::Reply(read_transaction(&self.pending, p + 4));
                    p = p + 68;
                }
                go = false;
            } else {
                p = p + 4;
            }
        }
        if let ReplyStep::Reply(t) = r {
            if t.buffer != 0 {
                self.free.push(t.buffer);
            }
        }
        self.pending = rest_of(&self.pending, p);
        r
    }
}

/// The bytes from `p` on.
fn rest_of(b: &Vec<u8>, p: usize) -> (r: Vec<u8>)
    requires
        p <= b.len(),
    ensures
        r@ == b@.skip(p as int),
{
    let mut r: Vec<u8> = Vec::new();
    let mut i: usize = p;
    while i < b.len()
        invariant
            p <= i <= b.len(),
            r@ == b@.subrange(p as int, i as int),
        decreases b.len() - i,
    {
        r.push(b[i]);
        proof {
            assert(r@ =~= b@.subrange(p as int, i + 1));
        }
        i += 1;
    }
    proof {
        assert(b@.subrange(p as int, b@.len() as int) =~= b@.skip(p as int));
    }
    r
}

proof fn lemma_transaction_same(a: Seq<u8>, p: int, b: Seq<u8>, q: int)
    requires
        forall|k: int| 0 <= k < 64 ==> a[#[trigger] (p + k)] == b[q + k],
    ensures
        transaction_at(a, p) == transaction_at(b, q),
{
    lemma_le_part(a, p, b, q, 0, 8);
    lemma_le_part(a, p, b, q, 8, 8);
    lemma_le_part(a, p, b, q, 16, 4);
    lemma_le_part(a, p, b, q, 20, 4);
    lemma_le_part(a, p, b, q, 24, 4);
    lemma_le_part(a, p, b, q, 28, 4);
    lemma_le_part(a, p, b, q, 32, 8);
    lemma_le_part(a, p, b, q, 40, 8);
    lemma_le_part(a, p, b, q, 48, 8);
    lemma_le_part(a, p, b, q, 56, 8);
}

proof fn lemma_le_part(a: Seq<u8>, p: int, b: Seq<u8>, q: int, o: int, n: nat)
    requires
        0 <= o,
        o + n <= 64,
        forall|k: int| 0 <= k < 64 ==> a[#[trigger] (p + k)] == b[q + k],
    ensures
        parcel::le_at(a, p + o, n) == parcel::le_at(b, q + o, n),
{
    assert forall|k: int| 0 <= k < n implies a[#[trigger] (p + o + k)] == b[q + o + k] by {
        assert(a[p + (o + k)] == b[q + (o + k)]);
    }
    parcel::lemma_le_same(a, p + o, b, q + o, n);
}

/// Reading on from `p` is reading what is left from its start.
proof fn lemma_scan_shift(b: Seq<u8>, p: int, q: int)
    requires
        0 <= p,
        0 <= q,
        p + q <= b.len(),
    ensures
        ({
            let (x, i) = reply_scan(b, p + q);
            let (y, j) = reply_scan(b.skip(p), q);
            x == y && i == p + j
        }),
    decreases b.len() - p - q,
{
    let c = b.skip(p);
    if q + 4 <= c.len() {
        assert forall|k: int| 0 <= k < 4 implies b[#[trigger] (p + q + k)] == c[q + k] by {}
        parcel::lemma_le_same(b, p + q, c, q, 4);
        let cmd = parcel::le_at(c, q, 4);
        if cmd == BR_DEAD_REPLY || cmd == BR_FAILED_REPLY {
        } else if cmd == BR_REPLY {
            if q + 68 <= c.len() {
                assert forall|k: int| 0 <= k < 64 implies b[#[trigger] (p + q + 4 + k)] == c[q + 4
                    + k] by {}
                lemma_transaction_same(b, p + q + 4, c, q + 4);
            }
        } else {
            lemma_scan_shift(b, p, q + 4);
        }
    }
}

proof fn lemma_scan_more(b: Seq<u8>, more: Seq<u8>, p: int)
    requires
        0 <= p <= b.len(),
        reply_scan(b, p).0 == ReplyStep::Wait,
    ensures
        p <= reply_scan(b, p).1 <= b.len(),
        reply_scan(b + more, p) == reply_scan(b + more, reply_scan(b, p).1),
    decreases b.len() - p,
{
    if p + 4 <= b.len() {
        let all = b + more;
        assert forall|k: int| 0 <= k < 4 implies all[#[trigger] (p + k)] == b[p + k] by {}
        parcel::lemma_le_same(all, p, b, p, 4);
        let cmd = parcel::le_at(b, p, 4);
        if cmd != BR_DEAD_REPLY && cmd != BR_FAILED_REPLY && cmd != BR_REPLY {
            lemma_scan_more(b, more, p + 4);
        }
    }
}

/// It makes no difference in how many pieces the answers are read: what was not
/// looked at is looked at together with what comes next.
pub proof fn answers_may_come_in_pieces(b: Seq<u8>, more: Seq<u8>)
    requires
        reply_scan(b, 0).0 == ReplyStep::Wait,
    ensures
        ({
            let p = reply_scan(b, 0).1;
            let (x, i) = reply_scan(b + more, 0);
            let (y, j) = reply_scan(b.skip(p) + more, 0);
            x == y && i == p + j
        }),
{
    lemma_scan_more(b, more, 0);
    let p = reply_scan(b, 0).1;
    lemma_scan_shift(b + more, p, 0);
    assert((b + more).skip(p) =~= b.skip(p) + more);
}

/// What is to be read of the memory that the driver fills.
#[derive(Clone, Copy, Debug, PartialEq, Eq, Structural)]
pub enum MappedRead {
    /// There is nothing to read.
    Nothing,
    /// So many bytes from that address on.
    Range(u64, u64),
    /// The range does not lie in that memory.
    Outside,
}

/// Whether `len` bytes at `ptr` lie in the `size` bytes at `base`.
pub fn read_mapped(base: u64, size: u64, ptr: u64, len: u64) -> (r: MappedRead)
    ensures
        r == (if ptr == 0 {
            MappedRead::Nothing
        } else if base <= ptr && ptr + len <= base + size {
            MappedRead::Range(ptr, len)
        } else {
            MappedRead::Outside
        }),
{
    if ptr == 0 {
        MappedRead::Nothing
    } else if base <= ptr && ptr as u128 + len as u128 <= base as u128 + size as u128 {
        MappedRead::Range(ptr, len)
    } else {
        MappedRead::Outside
    }
}

/// The whole numbers of eight bytes each.
pub open spec fn offset_table(b: Seq<u8>) -> Seq<u64> {
    Seq::new(b.len() / 8, |k: int| parcel::le_at(b, 8 * k, 8) as u64)
}

/// The reply: its data, and its object offsets, from what could be read of
/// them.
pub fn reply_of(t: &Transaction, data: Option<Vec<u8>>, offsets: Option<Vec<u8>>) -> (r: Option<
    (Vec<u8>, Vec<u64>),
>)
    ensures
        match r {
            Some((d, o)) => data == Some(d) && (if t.offsets_size > 0 {
                offsets matches Some(b) && o@ == offset_table(b@)
            } else {
                o@ == Seq::<u64>::empty()
            }),
            None => data is None || (t.offsets_size > 0 && offsets is None),
        },
{
    let d = match data {
        Some(d) => d,
        None => {
            return None;
        },
    };
    let mut o: Vec<u64> = Vec::new();
    if t.offsets_size > 0 {
        let b = match offsets {
            Some(b) => b,
            None => {
                return None;
            },
        };
        let n: usize = b.len() / 8;
        let mut k: usize = 0;
        while k < n
            invariant
                k <= n,
                n == b.len() / 8,
                o@ == Seq::new(k as nat, |k: int| parcel::le_at(b@, 8 * k, 8) as u64),
            decreases n - k,
        {
            o.push(parcel::u64_at(&b, 8 * k));
            proof {
                assert(o@ =~= Seq::new(
                    (k + 1) as nat,
                    |k: int| parcel::le_at(b@, 8 * k, 8) as u64,
                ));
            }
            k += 1;
        }
        proof {
            assert(o@ =~= offset_table(b@));
        }
    } else {
        proof {
            assert(o@ =~= Seq::<u64>::empty());
        }
    }
    Some((d, o))
}

/// The request for a service with the interface of the service manager in
/// front.
pub open spec fn service_request(name: Seq<char>) -> Seq<u8> {
    parcel::with_text(
        parcel::with_text(
            parcel::le_bytes(0, 4) + parcel::le_bytes(0, 4),
            "android.os.IServiceManager"@,
        ),
        name,
    )
}

/// The requests for a service, in the order in which they are tried: the four
/// codes of the interface, then the two older ones, all with the interface in
/// front, and at last the name alone.
pub open spec fn service_tries(name: Seq<char>) -> Seq<(u32, Seq<u8>)> {
    let full = service_request(name);
    seq![
        (1, full),
        (2, full),
        (3, full),
        (4, full),
        (0x53, full),
        (0x43, full),
        (0x53, parcel::with_text(seq![], name)),
    ]
}

/// A request as the contract speaks of it.
pub open spec fn tries_view(v: Seq<(u32, Vec<u8>)>) -> Seq<(u32, Seq<u8>)> {
    v.map_values(|t: (u32, Vec<u8>)| (t.0, t.1@))
}

fn request_for(name: &str) -> (r: Vec<u8>)
    ensures
        r@ == service_request(name@),
{
    let mut data: Vec<u8> = Vec::new();
    parcel::push_i32(&mut data, 0);
    parcel::push_i32(&mut data, 0);
    proof {
        assert(data@ =~= parcel::le_bytes(0, 4) + parcel::le_bytes(0, 4));
    }
    parcel::push_utf16(&mut data, "android.os.IServiceManager");
    parcel::push_utf16(&mut data, name);
    data
}

/// The requests to the service manager that ask for a service: call code and
/// data.
pub fn service_attempts(name: &str) -> (r: Vec<(u32, Vec<u8>)>)
    ensures
        tries_view(r@) == service_tries(name@),
{
    let mut r: Vec<(u32, Vec<u8>)> = Vec::new();
    r.push((1, request_for(name)));
    r.push((2, request_for(name)));
    r.push((3, request_for(name)));
    r.push((4, request_for(name)));
    r.push((0x53, request_for(name)));
    r.push((0x43, request_for(name)));
    let mut plain: Vec<u8> = Vec::new();
    parcel::push_utf16(&mut plain, name);
    proof {
        assert(parcel::with_text(seq![], name@) == plain@);
    }
    r.push((0x53, plain));
    proof {
        assert(tries_view(r@) =~= service_tries(name@));
    }
    r
}

/// The handle in the answer of the service manager: behind a zero status, or
/// right at the start.
pub open spec fn service_handle(b: Seq<u8>) -> Option<int> {
    let handle = BINDER_TYPE_HANDLE as int;
    match parcel::i32_read(b, 0) {
        Some(x) => if x == 0 {
            if parcel::i32_read(b, 4) == Some(handle) && b.len() >= 20 {
                Some((parcel::le_at(b, 12, 8) % 0x1_0000_0000) as int)
            } else {
                None
            }
        } else if x == handle && b.len() >= 16 {
            Some((parcel::le_at(b, 8, 8) % 0x1_0000_0000) as int)
        } else {
            None
        },
        None => None,
    }
}

/// Reads the flags and the handle of a reference.
fn read_handle(r: &mut ParcelReader) -> (h: Option<u32>)
    requires
        old(r).wf(),
    ensures
        match h {
            Some(x) => old(r).at() + 12 <= old(r).bytes().len() && x == parcel::le_at(
                old(r).bytes(),
                old(r).at() + 4,
                8,
            ) % 0x1_0000_0000,
            None => old(r).at() + 12 > old(r).bytes().len(),
        },
{
    match r.read_i32() {
        Some(_) => match r.read_u64() {
            Some(x) => Some((x % 0x1_0000_0000) as u32),
            None => None,
        },
        None => None,
    }
}

/// The handle in the answer of the service manager.
pub fn parse_service_handle(reply: &Vec<u8>) -> (h: Option<u32>)
    ensures
        match h {
            Some(x) => service_handle(reply@) == Some(x as int),
            None => service_handle(reply@) is None,
        },
{
    let mut r = ParcelReader::new(reply);
    let first: i32 = match r.read_i32() {
        Some(x) => x,
        None => {
            return None;
        },
    };
    if first == 0 {
        match r.read_i32() {
            Some(t) => if t == BINDER_TYPE_HANDLE as i32 {
                read_handle(&mut r)
            } else {
                None
            },
            None => None,
        }
    } else if first == BINDER_TYPE_HANDLE as i32 {
        read_handle(&mut r)
    } else {
        None
    }
}

/// The handle in an answer, if there is an answer with one.
pub open spec fn answered_handle(reply: Option<Vec<u8>>) -> Option<int> {
    match reply {
        Some(b) => service_handle(b@),
        None => None,
    }
}

/// The handle of a service: the first one that the answers to the requests
/// bring. `replies` holds the answers so far, in the order of the requests, and
/// nothing for a request that failed.
pub fn get_service(replies: &Vec<Option<Vec<u8>>>) -> (h: Option<u32>)
    ensures
        match h {
            Some(x) => exists|i: int|
                0 <= i < replies@.len() && #[trigger] answered_handle(replies@[i]) == Some(
                    x as int,
                ) && forall|j: int|
                    0 <= j < i ==> #[trigger] answered_handle(replies@[j]) is None,
            None => forall|i: int|
                0 <= i < replies@.len() ==> #[trigger] answered_handle(replies@[i]) is None,
        },
{
    let mut i: usize = 0;
    while i < replies.len()
        invariant
            i <= replies.len(),
            forall|j: int| 0 <= j < i ==> #[trigger] answered_handle(replies@[j]) is None,
        decreases replies.len() - i,
    {
        if let Some(b) = &replies[i] {
            if let Some(x) = parse_service_handle(b) {
                assert(answered_handle(replies@[i as int]) == Some(x as int));
                return Some(x);
            }
        }
        assert(answered_handle(replies@[i as int]) is None);
        i += 1;
    }
    None
}

/// The transactions among the answers from `p` on; one that is cut off ends
/// them.
pub open spec fn incoming(b: Seq<u8>, p: int) -> Seq<Transaction>
    decreases b.len() - p,
{
    if p + 4 > b.len() {
        seq![]
    } else if parcel::le_at(b, p, 4) == BR_TRANSACTION {
        if p + 68 > b.len() {
            seq![]
        } else {
            seq![transaction_at(b, p + 4)] + incoming(b, p + 68)
        }
    } else {
        incoming(b, p + 4)
    }
}

/// The transactions that have come in.
pub fn incoming_transactions(b: &Vec<u8>) -> (r: Vec<Transaction>)
    ensures
        r@ == incoming(b@, 0),
{
    let n: usize = b.len();
    let mut r: Vec<Transaction> = Vec::new();
    let mut p: usize = 0;
    let mut go: bool = true;
    while go && n - p >= 4
        invariant
            p <= n,
            n == b.len(),
            go ==> incoming(b@, 0) == r@ + incoming(b@, p as int),
            !go ==> incoming(b@, 0) == r@,
        decreases n - p + (if go { 1int } else { 0 }),
    {
        let ghost before = r@;
        if parcel::u32_at(b, p) == BR_TRANSACTION {
            if n - p < 68 {
                go = false;
                proof {
                    assert(before + Seq::<Transaction>::empty() =~= before);
                }
            } else {
                let t = read_transaction(b, p + 4);
                r.push(t);
                proof {
                    assert(before + (seq![t] + incoming(b@, p + 68)) =~= r@ + incoming(b@, p + 68));
                }
                p = p + 68;
            }
        } else {
            p = p + 4;
        }
    }
    proof {
        assert(r@ + Seq::<Transaction>::empty() =~= r@);
    }
    r
}

/// The process and the user that have come to the foreground, as the data of a
/// call to a process observer says it.
pub open spec fn foreground(code: u32, b: Seq<u8>) -> Option<(int, int)> {
    let p = parcel::after_text(b, parcel::after_i32(b, parcel::after_i32(b, 0)));
    if code != TX_ON_FG_ACTIVITIES_CHANGED {
        None
    } else {
        match (
            parcel::i32_read(b, p),
            parcel::i32_read(b, p + 4),
            parcel::i32_read(b, p + 8),
        ) {
            (Some(pid), Some(uid), Some(fg)) => if fg != 0 && pid > 0 {
                Some((pid, uid))
            } else {
                None
            },
            _ => None,
        }
    }
}

/// The process and the user that have come to the foreground.
pub fn foreground_of(code: u32, data: &Vec<u8>) -> (r: Option<(i32, i32)>)
    ensures
        match r {
            Some((pid, uid)) => foreground(code, data@) == Some((pid as int, uid as int)),
            None => foreground(code, data@) is None,
        },
{
    if code != TX_ON_FG_ACTIVITIES_CHANGED {
        return None;
    }
    let mut r = ParcelReader::new(data);
    let _ = r.read_i32();
    let _ = r.read_i32();
    let _ = r.read_utf16_str();
    match (r.read_i32(), r.read_i32(), r.read_i32()) {
        (Some(pid), Some(uid), Some(fg)) => if fg != 0 && pid > 0 {
            Some((pid, uid))
        } else {
            None
        },
        _ => None,
    }
}

/// The call to the display service that sets the refresh rate has succeeded:
/// its status is zero, and so is the exception in the reply, if there is one.
pub fn refresh_call_ok(status: i32, exception: Option<i32>) -> (r: bool)
    ensures
        r == (status == 0 && (exception is None || exception == Some(0i32))),
{
    status == 0 && match exception {
        Some(e) => e == 0,
        None => true,
    }
}

/// A number that stands at `p` is read there.
proof fn lemma_number_at(b: Seq<u8>, p: int, x: nat)
    requires
        0 <= p,
        p + 4 <= b.len(),
        b.subrange(p, p + 4) == parcel::le_bytes(x, 4),
        x < 0x1_0000_0000,
    ensures
        parcel::le_at(b, p, 4) == x,
        parcel::i32_read(b, p) == Some(parcel::signed32(x)),
{
    assert(parcel::past(4) == 0x1_0000_0000) by {
        reveal_with_fuel(parcel::past, 5);
    }
    parcel::number_reads_back(b, p, x, 4);
}

/// The answers of the driver are known by their marks: a reply brings its
/// transaction, a dead or failed receiver ends the wait, and other answers are
/// passed over.
pub proof fn answers_are_known_by_their_marks(t: Transaction, rest: Seq<u8>)
    ensures
        reply_scan(parcel::le_bytes(0x80407203, 4) + transaction_bytes(t) + rest, 0) == (
            ReplyStep::Reply(t),
            68int,
        ),
        reply_scan(parcel::le_bytes(0x7205, 4) + rest, 0) == (ReplyStep::Failed, 4int),
        reply_scan(parcel::le_bytes(0x720f, 4) + rest, 0) == (ReplyStep::Failed, 4int),
        reply_scan(parcel::le_bytes(0x7206, 4) + rest, 0) == reply_scan(
            parcel::le_bytes(0x7206, 4) + rest,
            4,
        ),
        incoming(parcel::le_bytes(0x80407202, 4) + transaction_bytes(t) + rest, 0).len() > 0,
        incoming(parcel::le_bytes(0x80407202, 4) + transaction_bytes(t) + rest, 0)[0] == t,
{
    lemma_transaction_len(t);
    let r = parcel::le_bytes(0x80407203, 4);
    let i = parcel::le_bytes(0x80407202, 4);
    let d = parcel::le_bytes(0x7205, 4);
    let f = parcel::le_bytes(0x720f, 4);
    let c = parcel::le_bytes(0x7206, 4);
    parcel::lemma_le_bytes_len(0x80407203, 4);
    parcel::lemma_le_bytes_len(0x80407202, 4);
    parcel::lemma_le_bytes_len(0x7205, 4);
    parcel::lemma_le_bytes_len(0x720f, 4);
    parcel::lemma_le_bytes_len(0x7206, 4);
    let a = r + transaction_bytes(t) + rest;
    assert(a.subrange(0, 4) =~= r);
    assert(a.subrange(4, 68) =~= transaction_bytes(t));
    lemma_number_at(a, 0, 0x80407203);
    transaction_reads_back(a, 4, t);
    let b = i + transaction_bytes(t) + rest;
    assert(b.subrange(0, 4) =~= i);
    assert(b.subrange(4, 68) =~= transaction_bytes(t));
    lemma_number_at(b, 0, 0x80407202);
    transaction_reads_back(b, 4, t);
    assert((d + rest).subrange(0, 4) =~= d);
    lemma_number_at(d + rest, 0, 0x7205);
    assert((f + rest).subrange(0, 4) =~= f);
    lemma_number_at(f + rest, 0, 0x720f);
    assert((c + rest).subrange(0, 4) =~= c);
    lemma_number_at(c + rest, 0, 0x7206);
}

proof fn lemma_transaction_len(t: Transaction)
    ensures
        transaction_bytes(t).len() == 64,
{
    parcel::lemma_le_bytes_len(t.target as nat, 8);
    parcel::lemma_le_bytes_len(t.cookie as nat, 8);
    parcel::lemma_le_bytes_len(t.code as nat, 4);
    parcel::lemma_le_bytes_len(t.flags as nat, 4);
    parcel::lemma_le_bytes_len(parcel::bits32(t.sender_pid as int), 4);
    parcel::lemma_le_bytes_len(t.sender_euid as nat, 4);
    parcel::lemma_le_bytes_len(t.data_size as nat, 8);
    parcel::lemma_le_bytes_len(t.offsets_size as nat, 8);
    parcel::lemma_le_bytes_len(t.buffer as nat, 8);
    parcel::lemma_le_bytes_len(t.offsets as nat, 8);
}

/// A call that tells of foreground activities, with two numbers and the name of
/// the interface in front, names the process and the user that come to the
/// foreground; one that tells that they leave it names nobody, and other calls
/// do not count.
pub proof fn foreground_calls_are_read(
    a: nat,
    b: nat,
    interface: Seq<char>,
    pid: int,
    uid: int,
    fg: nat,
    rest: Seq<u8>,
    code: u32,
)
    requires
        a < 0x1_0000_0000,
        b < 0x1_0000_0000,
        parcel::utf16(interface).len() <= parcel::MAX_TEXT_UNITS,
        0 < pid <= i32::MAX,
        0 <= uid <= i32::MAX,
        fg < 0x8000_0000,
    ensures
        ({
            let data = parcel::with_text(
                parcel::le_bytes(a, 4) + parcel::le_bytes(b, 4),
                interface,
            ) + parcel::le_bytes(pid as nat, 4) + parcel::le_bytes(uid as nat, 4)
                + parcel::le_bytes(fg, 4) + rest;
            foreground(code, data) == if code == 2 && fg != 0 {
                Some((pid, uid))
            } else {
                None
            }
        }),
{
    let x = parcel::le_bytes(a, 4);
    let y = parcel::le_bytes(b, 4);
    let p = parcel::le_bytes(pid as nat, 4);
    let u = parcel::le_bytes(uid as nat, 4);
    let f = parcel::le_bytes(fg, 4);
    parcel::lemma_le_bytes_len(a, 4);
    parcel::lemma_le_bytes_len(b, 4);
    parcel::lemma_le_bytes_len(pid as nat, 4);
    parcel::lemma_le_bytes_len(uid as nat, 4);
    parcel::lemma_le_bytes_len(fg, 4);
    let head = x + y;
    let front = parcel::with_text(head, interface);
    let tail = p + u + f + rest;
    let data = front + p + u + f + rest;
    assert(data =~= front + tail);
    parcel::text_reads_back(head, interface, tail);
    let n = front.len() as int;
    assert(head.len() == 8);
    assert(parcel::after_i32(data, 0) == 4);
    assert(parcel::after_i32(data, 4) == 8);
    assert(parcel::after_text(data, 8) == n);
    assert(data.subrange(n, n + 4) =~= p);
    assert(data.subrange(n + 4, n + 8) =~= u);
    assert(data.subrange(n + 8, n + 12) =~= f);
    lemma_number_at(data, n, pid as nat);
    lemma_number_at(data, n + 4, uid as nat);
    lemma_number_at(data, n + 8, fg);
}

/// The handle of a service stands in the answer behind a zero status and the
/// mark of a handle.
pub proof fn handles_are_read(flags: nat, handle: nat, rest: Seq<u8>)
    requires
        flags < 0x1_0000_0000,
        handle < 0x1_0000_0000,
    ensures
        service_handle(
            parcel::le_bytes(0, 4) + parcel::le_bytes(2, 4) + parcel::le_bytes(flags, 4)
                + parcel::le_bytes(handle, 8) + rest,
        ) == Some(handle as int),
        service_handle(
            parcel::le_bytes(2, 4) + parcel::le_bytes(flags, 4) + parcel::le_bytes(handle, 8)
                + rest,
        ) == Some(handle as int),
{
    let z = parcel::le_bytes(0, 4);
    let k = parcel::le_bytes(2, 4);
    let f = parcel::le_bytes(flags, 4);
    let h = parcel::le_bytes(handle, 8);
    parcel::lemma_le_bytes_len(0, 4);
    parcel::lemma_le_bytes_len(2, 4);
    parcel::lemma_le_bytes_len(flags, 4);
    parcel::lemma_le_bytes_len(handle, 8);
    assert(parcel::past(8) == 0x1_0000_0000_0000_0000) by {
        reveal_with_fuel(parcel::past, 9);
    }
    let a = z + k + f + h + rest;
    assert(a.subrange(0, 4) =~= z);
    assert(a.subrange(4, 8) =~= k);
    assert(a.subrange(12, 20) =~= h);
    lemma_number_at(a, 0, 0);
    lemma_number_at(a, 4, 2);
    parcel::number_reads_back(a, 12, handle, 8);
    let b = k + f + h + rest;
    assert(b.subrange(0, 4) =~= k);
    assert(b.subrange(8, 16) =~= h);
    lemma_number_at(b, 0, 2);
    parcel::number_reads_back(b, 8, handle, 8);
}

} // verus!
