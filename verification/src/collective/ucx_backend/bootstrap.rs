//! Bring-up: every rank's worker address travels over a TCP rendezvous, so
//! that each rank can connect to every other.
//!
//! 1. Rank 0 listens on the rendezvous port.
//! 2. Every other rank connects and says its rank and its address.
//! 3. Rank 0 collects all addresses, then sends the full list to every rank.
//! 4. Every rank connects to all peers but itself.
//!
//! Numbers on the wire are 32-bit little-endian; an address is preceded by its
//! length.

use crate::collective::error::CollectiveError;
use crate::text;
use vstd::prelude::*;

verus! {

/// The rendezvous: who this rank is and where rank 0 listens.
#[derive(Debug, Clone)]
pub struct BootstrapConfig {
    pub rank: usize,
    pub size: usize,
    pub root_host: String,
    pub root_port: u16,
}

/// The environment variables that describe the rendezvous, as far as they are
/// set. Rank and size may also come from the launchers' own variables.
#[derive(Debug)]
pub struct BootstrapVars {
    /// `PLUVIO_COLL_RANK`
    pub coll_rank: Option<String>,
    /// `OMPI_COMM_WORLD_RANK`
    pub ompi_rank: Option<String>,
    /// `PMI_RANK`
    pub pmi_rank: Option<String>,
    /// `PLUVIO_COLL_SIZE`
    pub coll_size: Option<String>,
    /// `OMPI_COMM_WORLD_SIZE`
    pub ompi_size: Option<String>,
    /// `PMI_SIZE`
    pub pmi_size: Option<String>,
    /// `PLUVIO_COLL_ROOT_HOST`
    pub root_host: Option<String>,
    /// `PLUVIO_COLL_ROOT_PORT`
    pub root_port: Option<String>,
}

/// The first of three variables that is set.
pub open spec fn first_set(
    a: Option<String>,
    b: Option<String>,
    c: Option<String>,
) -> Option<Seq<char>> {
    if a is Some {
        Some(a->0@)
    } else if b is Some {
        Some(b->0@)
    } else if c is Some {
        Some(c->0@)
    } else {
        None
    }
}

/// The first of three variables that is set.
fn first_of<'a>(
    a: &'a Option<String>,
    b: &'a Option<String>,
    c: &'a Option<String>,
) -> (r: Option<&'a String>)
    ensures
        r is Some <==> first_set(*a, *b, *c) is Some,
        r matches Some(s) ==> first_set(*a, *b, *c) == Some(s@),
{
    if a.is_some() {
        a.as_ref()
    } else if b.is_some() {
        b.as_ref()
    } else {
        c.as_ref()
    }
}

/// Outcome of reading a required number.
pub open spec fn required_number(value: Option<Seq<char>>, max: int) -> Option<nat> {
    match value {
        Some(s) => match text::unsigned_value(s) {
            Some(v) => if v <= max {
                Some(v)
            } else {
                None
            },
            None => None,
        },
        None => None,
    }
}

/// The rendezvous port: 13337 unless the variable says otherwise.
pub open spec fn port_number(vars: BootstrapVars) -> Option<nat> {
    match vars.root_port {
        Some(s) => required_number(Some(s@), 0xffff),
        None => Some(13337),
    }
}

impl BootstrapConfig {
    /// Read the rendezvous off the environment. Rank and size are required;
    /// the host is `localhost` and the port 13337 by default.
    pub fn from_env(vars: &BootstrapVars) -> (r: Result<BootstrapConfig, CollectiveError>)
        ensures
            ({
                let rank_var = first_set(vars.coll_rank, vars.ompi_rank, vars.pmi_rank);
                let size_var = first_set(vars.coll_size, vars.ompi_size, vars.pmi_size);
                let rank = required_number(rank_var, usize::MAX as int);
                let size = required_number(size_var, usize::MAX as int);
                match r {
                    Ok(config) => {
                        &&& rank == Some(config.rank as nat)
                        &&& size == Some(config.size as nat)
                        &&& port_number(*vars) == Some(config.root_port as nat)
                        &&& config.root_host@ == match vars.root_host {
                            Some(h) => h@,
                            None => "localhost"@,
                        }
                    },
                    Err(CollectiveError::Protocol(m)) => {
                        if rank_var is None {
                            m@ == "rank not provided"@
                        } else if rank is None {
                            m@ == "rank parse error"@
                        } else if size_var is None {
                            m@ == "size not provided"@
                        } else if size is None {
                            m@ == "size parse error"@
                        } else {
                            port_number(*vars) is None && m@ == "port parse error"@
                        }
                    },
                    Err(_) => false,
                }
            }),
    {
        let rank: usize = match first_of(&vars.coll_rank, &vars.ompi_rank, &vars.pmi_rank) {
            None => return Err(CollectiveError::Protocol("rank not provided")),
            Some(s) => match text::parse_unsigned(s.as_str(), usize::MAX as u64) {
                None => return Err(CollectiveError::Protocol("rank parse error")),
                Some(v) => v as usize,
            },
        };
        let size: usize = match first_of(&vars.coll_size, &vars.ompi_size, &vars.pmi_size) {
            None => return Err(CollectiveError::Protocol("size not provided")),
            Some(s) => match text::parse_unsigned(s.as_str(), usize::MAX as u64) {
                None => return Err(CollectiveError::Protocol("size parse error")),
                Some(v) => v as usize,
            },
        };
        let root_host = match &vars.root_host {
            Some(h) => h.clone(),
            None => String::from_str("localhost"),
        };
        let root_port: u16 = match &vars.root_port {
            None => 13337,
            Some(s) => match text::parse_unsigned(s.as_str(), 0xffff) {
                None => return Err(CollectiveError::Protocol("port parse error")),
                Some(v) => v as u16,
            },
        };
        Ok(BootstrapConfig { rank, size, root_host, root_port })
    }

    /// Where rank 0 listens: every interface, the rendezvous port.
    pub fn bind_addr(&self) -> (s: String)
        ensures
            s@ == "0.0.0.0:"@ + text::decimal(self.root_port as nat),
    {
        let mut s = String::from_str("0.0.0.0:");
        text::push_decimal(&mut s, self.root_port as u64);
        s
    }

    /// Where the other ranks connect.
    pub fn connect_addr(&self) -> (s: String)
        ensures
            s@ == self.root_host@ + ":"@ + text::decimal(self.root_port as nat),
    {
        let mut s = self.root_host.clone();
        s.append(":");
        text::push_decimal(&mut s, self.root_port as u64);
        s
    }
}

/// A 32-bit number on the wire.
pub open spec fn word_bytes(n: int) -> Seq<u8> {
    seq![
        (n % 0x100) as u8,
        ((n / 0x100) % 0x100) as u8,
        ((n / 0x1_0000) % 0x100) as u8,
        ((n / 0x100_0000) % 0x100) as u8,
    ]
}

/// The number that four bytes stand for.
pub open spec fn word_value(b: Seq<u8>) -> int {
    b[0] + 0x100 * b[1] + 0x1_0000 * b[2] + 0x100_0000 * b[3]
}

/// A byte string on the wire: its length, then its bytes.
pub open spec fn frame_bytes(b: Seq<u8>) -> Seq<u8> {
    word_bytes(b.len() as int) + b
}

/// Byte strings on the wire, one after the other.
pub open spec fn frames_bytes(list: Seq<Seq<u8>>) -> Seq<u8>
    decreases list.len(),
{
    if list.len() == 0 {
        Seq::empty()
    } else {
        frames_bytes(list.drop_last()) + frame_bytes(list.last())
    }
}

/// What a rank says to rank 0: its rank and its address.
pub open spec fn hello_bytes(rank: int, addr: Seq<u8>) -> Seq<u8> {
    word_bytes(rank) + frame_bytes(addr)
}

/// What rank 0 answers: the number of addresses and the addresses.
pub open spec fn table_bytes(list: Seq<Seq<u8>>) -> Seq<u8> {
    word_bytes(list.len() as int) + frames_bytes(list)
}

/// The plain content of a list of byte strings.
pub open spec fn list_view(list: Seq<Vec<u8>>) -> Seq<Seq<u8>> {
    Seq::new(list.len(), |i: int| list[i]@)
}

/// Append a number to a message; of a larger one the low 32 bits.
fn push_word(out: &mut Vec<u8>, n: usize)
    ensures
        final(out)@ == old(out)@ + word_bytes(n as int),
{
    out.push((n % 0x100) as u8);
    out.push(((n / 0x100) % 0x100) as u8);
    out.push(((n / 0x1_0000) % 0x100) as u8);
    out.push(((n / 0x100_0000) % 0x100) as u8);
    assert(out@ =~= old(out)@ + word_bytes(n as int));
}

/// Append bytes to a message.
fn push_bytes(out: &mut Vec<u8>, b: &[u8])
    ensures
        final(out)@ == old(out)@ + b@,
{
    out.extend_from_slice(b);
    assert(out@ =~= old(out)@ + b@);
}

/// Append a length-prefixed byte string to a message.
pub fn write_u32_len_prefixed(out: &mut Vec<u8>, b: &[u8])
    ensures
        final(out)@ == old(out)@ + frame_bytes(b@),
{
    push_word(out, b.len());
    push_bytes(out, b);
    assert(out@ =~= old(out)@ + frame_bytes(b@));
}

/// The number that four bytes stand for.
fn read_word(b: &[u8]) -> (n: u32)
    requires
        b@.len() == 4,
    ensures
        n == word_value(b@),
{
    b[0] as u32 + 0x100 * b[1] as u32 + 0x1_0000 * b[2] as u32 + 0x100_0000 * b[3] as u32
}

/// The message by which `rank` introduces itself.
pub fn hello_message(rank: usize, addr: &[u8]) -> (out: Vec<u8>)
    ensures
        out@ == hello_bytes(rank as int, addr@),
{
    let mut out: Vec<u8> = Vec::new();
    push_word(&mut out, rank);
    write_u32_len_prefixed(&mut out, addr);
    assert(out@ =~= hello_bytes(rank as int, addr@));
    out
}

/// The message that hands out all addresses.
pub fn table_message(list: &Vec<Vec<u8>>) -> (out: Vec<u8>)
    ensures
        out@ == table_bytes(list_view(list@)),
{
    let mut out: Vec<u8> = Vec::new();
    push_word(&mut out, list.len());
    let ghost all = list_view(list@);
    let mut i: usize = 0;
    assert(frames_bytes(all.take(0)) =~= Seq::<u8>::empty());
    assert(out@ =~= word_bytes(all.len() as int) + frames_bytes(all.take(0)));
    while i < list.len()
        invariant
            i <= list.len(),
            all == list_view(list@),
            out@ == word_bytes(all.len() as int) + frames_bytes(all.take(i as int)),
        decreases list.len() - i,
    {
        write_u32_len_prefixed(&mut out, list[i].as_slice());
        assert(all.take(i + 1).drop_last() =~= all.take(i as int));
        assert(all.take(i + 1).last() == list@[i as int]@);
        assert(out@ =~= word_bytes(all.len() as int) + frames_bytes(all.take(i + 1)));
        i += 1;
    }
    assert(all.take(all.len() as int) =~= all);
    out
}

/// A number below `2^32` reads back.
pub proof fn word_reads_back(n: int)
    requires
        0 <= n < 0x1_0000_0000,
    ensures
        word_bytes(n).len() == 4,
        word_value(word_bytes(n)) == n,
{
}

/// `s` begins with `front`.
pub open spec fn begins_with(s: Seq<u8>, front: Seq<u8>) -> bool {
    front.len() <= s.len() && s.take(front.len() as int) == front
}

/// All byte strings are short enough for their length to fit its field.
pub open spec fn lengths_fit(list: Seq<Seq<u8>>) -> bool {
    forall|i: int| 0 <= i < list.len() ==> #[trigger] list[i].len() < 0x1_0000_0000
}

/// Two byte strings framed at the same place of a stream are the same.
proof fn lemma_frame_at(s: Seq<u8>, at: int, a: Seq<u8>, b: Seq<u8>)
    requires
        0 <= at,
        at + frame_bytes(a).len() <= s.len(),
        at + frame_bytes(b).len() <= s.len(),
        s.subrange(at, at + frame_bytes(a).len()) == frame_bytes(a),
        s.subrange(at, at + frame_bytes(b).len()) == frame_bytes(b),
        a.len() < 0x1_0000_0000,
        b.len() < 0x1_0000_0000,
    ensures
        a == b,
{
    let fa = frame_bytes(a);
    let fb = frame_bytes(b);
    assert(forall|i: int| 0 <= i < 4 ==> #[trigger] fa[i] == s[at + i] && fb[i] == s[at + i]) by {
        assert forall|i: int| 0 <= i < 4 implies #[trigger] fa[i] == s[at + i] && fb[i] == s[at
            + i] by {
            assert(s.subrange(at, at + fa.len())[i] == fa[i]);
            assert(s.subrange(at, at + fb.len())[i] == fb[i]);
        }
    }
    word_reads_back(a.len() as int);
    word_reads_back(b.len() as int);
    assert(word_bytes(a.len() as int) =~= fa.take(4));
    assert(word_bytes(b.len() as int) =~= fb.take(4));
    assert(fa.take(4) =~= fb.take(4));
    assert(fa == fb);
    assert(a =~= fa.skip(4));
    assert(b =~= fb.skip(4));
}

/// The list of addresses that a stream begins with can be read off in one way
/// only: whoever reads `count` frames gets the addresses that were sent.
pub proof fn frames_read_back(s: Seq<u8>, start: int, sent: Seq<Seq<u8>>, got: Seq<Seq<u8>>)
    requires
        0 <= start <= s.len(),
        begins_with(s.skip(start), frames_bytes(sent)),
        begins_with(s.skip(start), frames_bytes(got)),
        sent.len() == got.len(),
        lengths_fit(sent),
        lengths_fit(got),
    ensures
        sent == got,
    decreases sent.len(),
{
    let t = s.skip(start);
    if sent.len() > 0 {
        let fs = frames_bytes(sent.drop_last());
        let fg = frames_bytes(got.drop_last());
        assert(t.take(fs.len() as int) =~= t.take(frames_bytes(sent).len() as int).take(
            fs.len() as int,
        ));
        assert(t.take(fs.len() as int) =~= fs);
        assert(t.take(fg.len() as int) =~= t.take(frames_bytes(got).len() as int).take(
            fg.len() as int,
        ));
        assert(t.take(fg.len() as int) =~= fg);
        assert(lengths_fit(sent.drop_last())) by {
            assert(forall|i: int|
                0 <= i < sent.len() - 1 ==> #[trigger] sent.drop_last()[i] == sent[i]);
        }
        assert(lengths_fit(got.drop_last())) by {
            assert(forall|i: int|
                0 <= i < got.len() - 1 ==> #[trigger] got.drop_last()[i] == got[i]);
        }
        frames_read_back(s, start, sent.drop_last(), got.drop_last());
        let at = fs.len() as int;
        let ls = frame_bytes(sent.last());
        let lg = frame_bytes(got.last());
        assert(t.subrange(at, at + ls.len()) =~= t.take(frames_bytes(sent).len() as int).skip(at));
        assert(t.subrange(at, at + ls.len()) =~= ls);
        assert(t.subrange(at, at + lg.len()) =~= t.take(frames_bytes(got).len() as int).skip(at));
        assert(t.subrange(at, at + lg.len()) =~= lg);
        assert(sent[sent.len() - 1] == sent.last());
        assert(got[got.len() - 1] == got.last());
        lemma_frame_at(t, at, sent.last(), got.last());
        assert(sent =~= sent.drop_last().push(sent.last()));
        assert(got =~= got.drop_last().push(got.last()));
    } else {
        assert(sent =~= got);
    }
}

/// What a rank says to rank 0 can be read off in one way only.
pub proof fn hello_reads_back(
    s: Seq<u8>,
    sent_rank: int,
    sent: Seq<u8>,
    got_rank: int,
    got: Seq<u8>,
)
    requires
        begins_with(s, hello_bytes(sent_rank, sent)),
        begins_with(s, hello_bytes(got_rank, got)),
        0 <= sent_rank < 0x1_0000_0000,
        0 <= got_rank < 0x1_0000_0000,
        sent.len() < 0x1_0000_0000,
        got.len() < 0x1_0000_0000,
    ensures
        sent_rank == got_rank,
        sent == got,
{
    let hs = hello_bytes(sent_rank, sent);
    let hg = hello_bytes(got_rank, got);
    assert(s.take(4) =~= s.take(hs.len() as int).take(4));
    assert(s.take(4) =~= s.take(hg.len() as int).take(4));
    assert(hs.take(4) =~= word_bytes(sent_rank));
    assert(hg.take(4) =~= word_bytes(got_rank));
    word_reads_back(sent_rank);
    word_reads_back(got_rank);
    assert(s.subrange(4, 4int + frame_bytes(sent).len()) =~= s.take(hs.len() as int).skip(4));
    assert(s.subrange(4, 4int + frame_bytes(sent).len()) =~= frame_bytes(sent));
    assert(s.subrange(4, 4int + frame_bytes(got).len()) =~= s.take(hg.len() as int).skip(4));
    assert(s.subrange(4, 4int + frame_bytes(got).len()) =~= frame_bytes(got));
    lemma_frame_at(s, 4, sent, got);
}

/// The list that rank 0 sends is the list that a rank reads: what stands at the
/// front of the stream can be read off in one way only.
pub proof fn table_reads_back(s: Seq<u8>, sent: Seq<Seq<u8>>, got: Seq<Seq<u8>>)
    requires
        begins_with(s, table_bytes(sent)),
        begins_with(s, table_bytes(got)),
        sent.len() < 0x1_0000_0000,
        got.len() < 0x1_0000_0000,
        lengths_fit(sent),
        lengths_fit(got),
    ensures
        sent == got,
{
    let ts = table_bytes(sent);
    let tg = table_bytes(got);
    assert(s.take(4) =~= s.take(ts.len() as int).take(4));
    assert(s.take(4) =~= s.take(tg.len() as int).take(4));
    assert(ts.take(4) =~= word_bytes(sent.len() as int));
    assert(tg.take(4) =~= word_bytes(got.len() as int));
    word_reads_back(sent.len() as int);
    word_reads_back(got.len() as int);
    let fs = frames_bytes(sent);
    let fg = frames_bytes(got);
    assert(s.skip(4).take(fs.len() as int) =~= s.take(ts.len() as int).skip(4));
    assert(s.skip(4).take(fs.len() as int) =~= fs);
    assert(s.skip(4).take(fg.len() as int) =~= s.take(tg.len() as int).skip(4));
    assert(s.skip(4).take(fg.len() as int) =~= fg);
    frames_read_back(s, 4, sent, got);
}

/// How often a rank tries to reach rank 0.
pub const CONNECT_ATTEMPTS: u32 = 200;

/// Milliseconds between two attempts.
pub const CONNECT_BACKOFF_MS: u64 = 50;

/// Where an address exchange stands.
#[derive(Copy, Clone, Debug)]
pub enum Stage {
    /// Rank 0: listen.
    Bind,
    /// Rank 0: accept the next connection.
    Accept,
    /// Rank 0: read the rank off the new connection.
    PeerRank,
    /// Rank 0: read the length of the address of `rank`.
    PeerLen { rank: usize },
    /// Rank 0: read the address of `rank`.
    PeerAddr { rank: usize, len: usize },
    /// Rank 0: send all addresses to `to`.
    Reply { to: usize },
    /// Other ranks: try to connect.
    Connect,
    /// Other ranks: wait before the next attempt.
    Backoff,
    /// Other ranks: say rank and address.
    Hello,
    /// Other ranks: read the number of addresses.
    TableCount,
    /// Other ranks: read the length of the next address.
    TableLen,
    /// Other ranks: read the next address.
    TableAddr { len: usize },
    /// All addresses are known.
    Done,
}

/// What the caller does next.
#[derive(Debug)]
pub enum ExchangeAction {
    /// Listen at `bind_addr` of the configuration.
    Bind,
    /// Accept a connection; it is the current one.
    Accept,
    /// Read exactly `len` bytes from the current connection.
    Read { len: usize },
    /// Write `bytes` to the connection of rank `to`.
    Reply { to: usize, bytes: Vec<u8> },
    /// Try to connect to `connect_addr` of the configuration.
    Connect,
    /// Sleep.
    Sleep { millis: u64 },
    /// Write `bytes` to the current connection.
    Write { bytes: Vec<u8> },
    /// Nothing: the exchange is over.
    Finish,
}

/// The state of an address exchange.
#[verifier::ext_equal]
pub struct ExchangeView {
    pub rank: int,
    pub size: int,
    /// This rank's own address.
    pub own: Seq<u8>,
    pub stage: Stage,
    /// Ranks that have introduced themselves.
    pub accepted: int,
    /// Attempts to connect that failed.
    pub failures: int,
    /// Addresses by rank, as far as known.
    pub addresses: Seq<Seq<u8>>,
    /// What has been read from the current connection.
    pub heard: Seq<u8>,
}

impl ExchangeView {
    /// The state after the pending action other than a read has been done;
    /// `None` if the exchange has failed for good.
    pub open spec fn after_done(self) -> Option<ExchangeView> {
        match self.stage {
            Stage::Bind => Some(
                ExchangeView {
                    stage: if self.size > 1 {
                        Stage::Accept
                    } else {
                        Stage::Done
                    },
                    ..self
                },
            ),
            Stage::Accept => Some(
                ExchangeView { stage: Stage::PeerRank, heard: Seq::empty(), ..self },
            ),
            Stage::Reply { to } => Some(
                ExchangeView {
                    stage: if to + 1 < self.size {
                        Stage::Reply { to: (to + 1) as usize }
                    } else {
                        Stage::Done
                    },
                    ..self
                },
            ),
            Stage::Connect => Some(ExchangeView { stage: Stage::Hello, ..self }),
            Stage::Backoff => if self.failures < CONNECT_ATTEMPTS {
                Some(ExchangeView { stage: Stage::Connect, ..self })
            } else {
                None
            },
            Stage::Hello => Some(
                ExchangeView { stage: Stage::TableCount, heard: Seq::empty(), ..self },
            ),
            _ => Some(self),
        }
    }

    /// The state after an attempt to connect has failed.
    pub open spec fn after_failure(self) -> ExchangeView {
        ExchangeView { stage: Stage::Backoff, failures: self.failures + 1, ..self }
    }

    /// How many bytes the pending read asks for.
    pub open spec fn wanted(self) -> Option<int> {
        match self.stage {
            Stage::PeerRank => Some(4),
            Stage::PeerLen { .. } => Some(4),
            Stage::PeerAddr { len, .. } => Some(len as int),
            Stage::TableCount => Some(4),
            Stage::TableLen => Some(4),
            Stage::TableAddr { len } => Some(len as int),
            _ => None,
        }
    }

    /// The state after the pending read gave `bytes`; `None` if rank 0 counts
    /// another number of ranks.
    pub open spec fn after_read(self, bytes: Seq<u8>) -> Option<ExchangeView> {
        let heard = self.heard + bytes;
        match self.stage {
            Stage::PeerRank => Some(
                ExchangeView {
                    stage: Stage::PeerLen { rank: word_value(bytes) as usize },
                    heard,
                    ..self
                },
            ),
            Stage::PeerLen { rank } => Some(
                ExchangeView {
                    stage: Stage::PeerAddr { rank, len: word_value(bytes) as usize },
                    heard,
                    ..self
                },
            ),
            Stage::PeerAddr { rank, .. } => Some(
                ExchangeView {
                    addresses: self.addresses.update(rank as int, bytes),
                    accepted: self.accepted + 1,
                    stage: if self.accepted + 1 < self.size - 1 {
                        Stage::Accept
                    } else {
                        Stage::Reply { to: 1 }
                    },
                    heard,
                    ..self
                },
            ),
            Stage::TableCount => if word_value(bytes) != self.size {
                None
            } else {
                Some(
                    ExchangeView {
                        stage: if self.size > 0 {
                            Stage::TableLen
                        } else {
                            Stage::Done
                        },
                        heard,
                        ..self
                    },
                )
            },
            Stage::TableLen => Some(
                ExchangeView {
                    stage: Stage::TableAddr { len: word_value(bytes) as usize },
                    heard,
                    ..self
                },
            ),
            Stage::TableAddr { .. } => Some(
                ExchangeView {
                    addresses: self.addresses.push(bytes),
                    stage: if self.addresses.len() + 1 < self.size {
                        Stage::TableLen
                    } else {
                        Stage::Done
                    },
                    heard,
                    ..self
                },
            ),
            _ => Some(self),
        }
    }
}

/// An address exchange in progress.
pub struct AddressExchange {
    rank: usize,
    size: usize,
    own: Vec<u8>,
    stage: Stage,
    accepted: usize,
    failures: u32,
    addresses: Vec<Vec<u8>>,
    heard: Ghost<Seq<u8>>,
}

impl View for AddressExchange {
    type V = ExchangeView;

    closed spec fn view(&self) -> ExchangeView {
        ExchangeView {
            rank: self.rank as int,
            size: self.size as int,
            own: self.own@,
            stage: self.stage,
            accepted: self.accepted as int,
            failures: self.failures as int,
            addresses: list_view(self.addresses@),
            heard: self.heard@,
        }
    }
}

impl AddressExchange {
    /// The state is one that an exchange can be in; in particular what has been
    /// read from the current connection is accounted for.
    pub closed spec fn wf(&self) -> bool {
        let list = list_view(self.addresses@);
        let heard = self.heard@;
        if self.rank == 0 {
            &&& 0 < self.size == self.addresses@.len()
            &&& self.own@.len() < 0x1_0000_0000 ==> lengths_fit(list)
            &&& match self.stage {
                Stage::Bind => self.accepted == 0,
                Stage::Accept => self.accepted < self.size - 1,
                Stage::PeerRank => self.accepted < self.size - 1 && heard =~= Seq::<u8>::empty(),
                Stage::PeerLen { rank } => {
                    &&& self.accepted < self.size - 1
                    &&& rank < 0x1_0000_0000
                    &&& heard == word_bytes(rank as int)
                },
                Stage::PeerAddr { rank, len } => {
                    &&& self.accepted < self.size - 1
                    &&& rank < 0x1_0000_0000
                    &&& len < 0x1_0000_0000
                    &&& heard == word_bytes(rank as int) + word_bytes(len as int)
                },
                Stage::Reply { to } => 1 <= to < self.size,
                Stage::Done => true,
                _ => false,
            }
        } else {
            match self.stage {
                Stage::Connect => self.failures < CONNECT_ATTEMPTS && list.len() == 0,
                Stage::Backoff => {
                    0 < self.failures <= CONNECT_ATTEMPTS && list.len() == 0
                },
                Stage::Hello => list.len() == 0,
                Stage::TableCount => list.len() == 0 && heard =~= Seq::<u8>::empty(),
                Stage::TableLen => {
                    &&& list.len() < self.size < 0x1_0000_0000
                    &&& lengths_fit(list)
                    &&& heard == word_bytes(self.size as int) + frames_bytes(list)
                },
                Stage::TableAddr { len } => {
                    &&& list.len() < self.size < 0x1_0000_0000
                    &&& len < 0x1_0000_0000
                    &&& lengths_fit(list)
                    &&& heard == word_bytes(self.size as int) + frames_bytes(list) + word_bytes(
                        len as int,
                    )
                },
                Stage::Done => {
                    &&& list.len() == self.size
                    &&& lengths_fit(list)
                    &&& heard == table_bytes(list)
                },
                _ => false,
            }
        }
    }

    /// Start the exchange of `my_addr` with the other ranks.
    pub fn new(config: &BootstrapConfig, my_addr: &[u8]) -> (x: AddressExchange)
        requires
            config.rank == 0 ==> config.size > 0,
        ensures
            x.wf(),
            x@.rank == config.rank,
            x@.size == config.size,
            x@.own == my_addr@,
            x@.accepted == 0,
            x@.failures == 0,
            config.rank == 0 ==> x@.stage == Stage::Bind && x@.addresses == Seq::new(
                config.size as nat,
                |i: int|
                    if i == 0 {
                        my_addr@
                    } else {
                        Seq::<u8>::empty()
                    },
            ),
            config.rank != 0 ==> x@.stage == Stage::Connect && x@.addresses.len() == 0,
    {
        let own: Vec<u8> = vstd::slice::slice_to_vec(my_addr);
        let mut addresses: Vec<Vec<u8>> = Vec::new();
        if config.rank == 0 {
            addresses.push(vstd::slice::slice_to_vec(my_addr));
            let mut i: usize = 1;
            while i < config.size
                invariant
                    1 <= i <= config.size,
                    addresses@.len() == i,
                    list_view(addresses@) =~= Seq::new(
                        i as nat,
                        |j: int|
                            if j == 0 {
                                my_addr@
                            } else {
                                Seq::<u8>::empty()
                            },
                    ),
                decreases config.size - i,
            {
                let ghost listed = list_view(addresses@);
                addresses.push(Vec::new());
                assert(list_view(addresses@) =~= listed.push(Seq::empty()));
                i += 1;
            }
            AddressExchange {
                rank: config.rank,
                size: config.size,
                own,
                stage: Stage::Bind,
                accepted: 0,
                failures: 0,
                addresses,
                heard: Ghost(Seq::empty()),
            }
        } else {
            AddressExchange {
                rank: config.rank,
                size: config.size,
                own,
                stage: Stage::Connect,
                accepted: 0,
                failures: 0,
                addresses,
                heard: Ghost(Seq::empty()),
            }
        }
    }

    /// What to do next.
    pub fn action(&self) -> (a: ExchangeAction)
        requires
            self.wf(),
        ensures
            match (self@.stage, a) {
                (Stage::Bind, ExchangeAction::Bind) => true,
                (Stage::Accept, ExchangeAction::Accept) => true,
                (Stage::Reply { to }, ExchangeAction::Reply { to: dest, bytes }) => {
                    to == dest && bytes@ == table_bytes(self@.addresses)
                },
                (Stage::Connect, ExchangeAction::Connect) => true,
                (Stage::Backoff, ExchangeAction::Sleep { millis }) => {
                    millis == CONNECT_BACKOFF_MS
                },
                (Stage::Hello, ExchangeAction::Write { bytes }) => {
                    bytes@ == hello_bytes(self@.rank, self@.own)
                },
                (Stage::Done, ExchangeAction::Finish) => true,
                (_, ExchangeAction::Read { len }) => self@.wanted() == Some(len as int),
                _ => false,
            },
    {
        match self.stage {
            Stage::Bind => ExchangeAction::Bind,
            Stage::Accept => ExchangeAction::Accept,
            Stage::PeerRank => ExchangeAction::Read { len: 4 },
            Stage::PeerLen { .. } => ExchangeAction::Read { len: 4 },
            Stage::PeerAddr { len, .. } => ExchangeAction::Read { len },
            Stage::Reply { to } => {
                ExchangeAction::Reply { to, bytes: table_message(&self.addresses) }
            },
            Stage::Connect => ExchangeAction::Connect,
            Stage::Backoff => ExchangeAction::Sleep { millis: CONNECT_BACKOFF_MS },
            Stage::Hello => ExchangeAction::Write {
                bytes: hello_message(self.rank, self.own.as_slice()),
            },
            Stage::TableCount => ExchangeAction::Read { len: 4 },
            Stage::TableLen => ExchangeAction::Read { len: 4 },
            Stage::TableAddr { len } => ExchangeAction::Read { len },
            Stage::Done => ExchangeAction::Finish,
        }
    }

    /// The pending action, other than a read, has been done.
    pub fn on_done(&mut self) -> (r: Result<(), CollectiveError>)
        requires
            old(self).wf(),
            old(self)@.wanted() is None,
        ensures
            match r {
                Ok(_) => {
                    final(self).wf() && old(self)@.after_done() == Some(final(self)@)
                },
                Err(CollectiveError::Protocol(m)) => {
                    &&& old(self)@.after_done() is None
                    &&& m@ == "bootstrap: failed to connect to rank 0"@
                    &&& *final(self) == *old(self)
                },
                Err(_) => false,
            },
    {
        match self.stage {
            Stage::Bind => {
                if self.size > 1 {
                    self.stage = Stage::Accept;
                } else {
                    self.stage = Stage::Done;
                }
            },
            Stage::Accept => {
                self.heard = Ghost(Seq::empty());
                self.stage = Stage::PeerRank;
            },
            Stage::Reply { to } => {
                if to + 1 < self.size {
                    self.stage = Stage::Reply { to: to + 1 };
                } else {
                    self.stage = Stage::Done;
                }
            },
            Stage::Connect => {
                self.stage = Stage::Hello;
            },
            Stage::Backoff => {
                if self.failures < CONNECT_ATTEMPTS {
                    self.stage = Stage::Connect;
                } else {
                    return Err(
                        CollectiveError::Protocol("bootstrap: failed to connect to rank 0"),
                    );
                }
            },
            Stage::Hello => {
                self.heard = Ghost(Seq::empty());
                self.stage = Stage::TableCount;
            },
            _ => {},
        }
        Ok(())
    }

    /// The attempt to connect has failed.
    pub fn on_connect_failed(&mut self)
        requires
            old(self).wf(),
            old(self)@.stage == Stage::Connect,
        ensures
            final(self).wf(),
            final(self)@ == old(self)@.after_failure(),
    {
        self.failures = self.failures + 1;
        self.stage = Stage::Backoff;
    }

    /// The rank that the current connection has named, while its address is
    /// still being read.
    pub fn named_rank(&self) -> (r: Option<usize>)
        ensures
            r == match self@.stage {
                Stage::PeerLen { rank } => Some(rank),
                Stage::PeerAddr { rank, .. } => Some(rank),
                _ => None,
            },
    {
        match self.stage {
            Stage::PeerLen { rank } => Some(rank),
            Stage::PeerAddr { rank, .. } => Some(rank),
            _ => None,
        }
    }

    /// The pending read gave `bytes`. Returns the rank that the current
    /// connection belongs to once it has introduced itself.
    pub fn on_read(&mut self, bytes: &[u8]) -> (r: Result<Option<usize>, CollectiveError>)
        requires
            old(self).wf(),
            old(self)@.wanted() == Some(bytes@.len() as int),
            old(self)@.stage matches Stage::PeerAddr { rank, .. } ==> rank < old(self)@.size,
        ensures
            match r {
                Ok(peer) => {
                    &&& final(self).wf()
                    &&& old(self)@.after_read(bytes@) == Some(final(self)@)
                    &&& peer == match old(self)@.stage {
                        Stage::PeerAddr { rank, .. } => Some(rank),
                        _ => None,
                    }
                    &&& old(self)@.stage matches Stage::PeerAddr { rank, .. } ==> {
                        final(self)@.heard == hello_bytes(rank as int, bytes@)
                    }
                },
                Err(CollectiveError::Protocol(m)) => {
                    &&& old(self)@.after_read(bytes@) is None
                    &&& m@ == "bootstrap: size mismatch"@
                    &&& *final(self) == *old(self)
                },
                Err(_) => false,
            },
    {
        let ghost before = self@;
        match self.stage {
            Stage::PeerRank => {
                let rank: usize = read_word(bytes) as usize;
                proof {
                    lemma_word_of(bytes@);
                }
                self.heard = Ghost(self.heard@ + bytes@);
                self.stage = Stage::PeerLen { rank };
                assert(self.heard@ =~= word_bytes(rank as int));
                Ok(None)
            },
            Stage::PeerLen { rank } => {
                let len: usize = read_word(bytes) as usize;
                proof {
                    lemma_word_of(bytes@);
                }
                self.heard = Ghost(self.heard@ + bytes@);
                self.stage = Stage::PeerAddr { rank, len };
                Ok(None)
            },
            Stage::PeerAddr { rank, len } => {
                self.heard = Ghost(self.heard@ + bytes@);
                assert(self.heard@ =~= hello_bytes(rank as int, bytes@));
                let addr: Vec<u8> = vstd::slice::slice_to_vec(bytes);
                self.addresses.set(rank, addr);
                assert(list_view(self.addresses@) =~= before.addresses.update(
                    rank as int,
                    bytes@,
                ));
                self.accepted = self.accepted + 1;
                if self.accepted < self.size - 1 {
                    self.stage = Stage::Accept;
                } else {
                    self.stage = Stage::Reply { to: 1 };
                }
                Ok(Some(rank))
            },
            Stage::TableCount => {
                let count: usize = read_word(bytes) as usize;
                if count != self.size {
                    return Err(CollectiveError::Protocol("bootstrap: size mismatch"));
                }
                proof {
                    lemma_word_of(bytes@);
                }
                self.heard = Ghost(self.heard@ + bytes@);
                assert(frames_bytes(list_view(self.addresses@)) =~= Seq::<u8>::empty());
                assert(self.heard@ =~= word_bytes(self.size as int) + frames_bytes(
                    list_view(self.addresses@),
                ));
                if self.size > 0 {
                    self.stage = Stage::TableLen;
                } else {
                    self.stage = Stage::Done;
                }
                Ok(None)
            },
            Stage::TableLen => {
                let len: usize = read_word(bytes) as usize;
                proof {
                    lemma_word_of(bytes@);
                }
                self.heard = Ghost(self.heard@ + bytes@);
                self.stage = Stage::TableAddr { len };
                Ok(None)
            },
            Stage::TableAddr { len } => {
                let addr: Vec<u8> = vstd::slice::slice_to_vec(bytes);
                self.heard = Ghost(self.heard@ + bytes@);
                self.addresses.push(addr);
                assert(list_view(self.addresses@) =~= before.addresses.push(bytes@));
                assert(list_view(self.addresses@).drop_last() =~= before.addresses);
                assert(self.heard@ =~= word_bytes(self.size as int) + frames_bytes(
                    list_view(self.addresses@),
                ));
                if self.addresses.len() < self.size {
                    self.stage = Stage::TableLen;
                } else {
                    self.stage = Stage::Done;
                }
                Ok(None)
            },
            _ => Ok(None),
        }
    }

    /// The addresses of all ranks, once the exchange is over.
    pub fn into_addresses(self) -> (list: Vec<Vec<u8>>)
        requires
            self.wf(),
            self@.stage == Stage::Done,
        ensures
            list_view(list@) == self@.addresses,
            list@.len() == self@.size,
            self@.rank != 0 || self@.own.len() < 0x1_0000_0000 ==> lengths_fit(list_view(list@)),
            self@.rank != 0 ==> self@.heard == table_bytes(list_view(list@)),
    {
        self.addresses
    }
}

/// Four bytes are the wire form of the number that they stand for.
proof fn lemma_word_of(b: Seq<u8>)
    requires
        b.len() == 4,
    ensures
        0 <= word_value(b) < 0x1_0000_0000,
        word_bytes(word_value(b)) == b,
{
    let (b0, b1, b2, b3) = (b[0] as int, b[1] as int, b[2] as int, b[3] as int);
    let v = word_value(b);
    let v1 = b1 + 0x100 * b2 + 0x1_0000 * b3;
    let v2 = b2 + 0x100 * b3;
    assert(v == b0 + 0x100 * v1);
    assert(v % 0x100 == b0 && v / 0x100 == v1);
    assert(v == b0 + 0x100 * b1 + 0x1_0000 * v2);
    assert(v1 % 0x100 == b1 && v / 0x1_0000 == v2);
    assert(v2 % 0x100 == b2 && v / 0x100_0000 == b3);
    let w = word_bytes(v);
    assert(w[0] == b[0]);
    assert(w[1] == b[1]);
    assert(w[2] == b[2]);
    assert(w[3] == b[3]);
    assert(w =~= b);
}

/// Whom to connect to: every address but this rank's own.
pub fn connect_targets(addresses: Vec<Vec<u8>>, rank: usize) -> (targets: Vec<Option<Vec<u8>>>)
    ensures
        targets@ == Seq::new(
            addresses@.len(),
            |i: int|
                if i == rank {
                    None
                } else {
                    Some(addresses@[i])
                },
        ),
{
    let ghost all = addresses@;
    let mut rest: Vec<Vec<u8>> = addresses;
    let mut back: Vec<Option<Vec<u8>>> = Vec::new();
    while rest.len() > 0
        invariant
            rest@.len() + back@.len() == all.len(),
            rest@ =~= all.take(rest@.len() as int),
            back@ =~= Seq::new(
                (all.len() - rest@.len()) as nat,
                |j: int|
                    if all.len() - 1 - j == rank {
                        None
                    } else {
                        Some(all[all.len() - 1 - j])
                    },
            ),
        decreases rest@.len(),
    {
        let addr = rest.pop().unwrap();
        if rest.len() == rank {
            back.push(None);
        } else {
            back.push(Some(addr));
        }
    }
    let mut targets: Vec<Option<Vec<u8>>> = Vec::new();
    while back.len() > 0
        invariant
            back@.len() + targets@.len() == all.len(),
            back@ =~= Seq::new(
                back@.len(),
                |j: int|
                    if all.len() - 1 - j == rank {
                        None
                    } else {
                        Some(all[all.len() - 1 - j])
                    },
            ),
            targets@ =~= Seq::new(
                targets@.len(),
                |i: int|
                    if i == rank {
                        None
                    } else {
                        Some(all[i])
                    },
            ),
        decreases back@.len(),
    {
        let target = back.pop().unwrap();
        targets.push(target);
    }
    targets
}


/// The variables of this library go before those of the launchers, and the
/// first of them that is set is the one that counts.
pub proof fn first_set_goes_first(a: Option<String>, b: Option<String>, c: Option<String>)
    ensures
        a is Some ==> first_set(a, b, c) == Some(a->0@),
        a is None ==> first_set(a, b, c) == first_set(b, c, None),
        first_set(a, b, c) is None <==> a is None && b is None && c is None,
{
}

/// A number is read exactly if the variable is set, holds digits only and does
/// not exceed its limit; the port is 13337 if the variable is not set.
pub proof fn numbers_are_within_their_limits(value: Option<Seq<char>>, max: int, vars: BootstrapVars)
    ensures
        value is None ==> required_number(value, max) is None,
        value matches Some(s) ==> (required_number(value, max) is Some <==> (
        text::unsigned_value(s) is Some && text::unsigned_value(s)->0 <= max)),
        value is Some && required_number(value, max) is Some ==> required_number(value, max)
            == text::unsigned_value(value->0),
        vars.root_port is None ==> port_number(vars) == Some(13337nat),
        vars.root_port matches Some(s) ==> match port_number(vars) {
            Some(p) => p <= 65535 && text::unsigned_value(s@) == Some(p),
            None => text::unsigned_value(s@) is None || text::unsigned_value(s@)->0 > 65535,
        },
{
}

/// A number goes over the wire least significant byte first.
pub proof fn word_is_little_endian(n: int, i: int)
    requires
        0 <= n,
        0 < i < 4,
    ensures
        word_bytes(n).len() == 4,
        word_bytes(n)[0] == n % 256,
        word_bytes(n)[i] == word_bytes(n / 256)[i - 1],
{
}

/// Four bytes are read least significant byte first.
pub proof fn word_value_is_little_endian(b: Seq<u8>)
    requires
        b.len() == 4,
    ensures
        word_value(b) == b[0] + 256 * (b[1] + 256 * (b[2] + 256 * b[3])),
{
}

/// What stands where in a byte string on the wire: four bytes of length, then
/// the bytes themselves.
pub proof fn frame_layout(b: Seq<u8>, i: int)
    requires
        b.len() < 0x1_0000_0000,
    ensures
        frame_bytes(b).len() == 4 + b.len(),
        word_value(frame_bytes(b).take(4)) == b.len(),
        0 <= i < b.len() ==> frame_bytes(b)[4 + i] == b[i],
{
    word_reads_back(b.len() as int);
    assert(frame_bytes(b).take(4) =~= word_bytes(b.len() as int));
}

/// Byte strings go over the wire one behind the other, in order.
pub proof fn frames_go_in_order(a: Seq<Seq<u8>>, b: Seq<Seq<u8>>, one: Seq<u8>)
    ensures
        frames_bytes(Seq::empty()) == Seq::<u8>::empty(),
        frames_bytes(seq![one]) == frame_bytes(one),
        frames_bytes(a + b) == frames_bytes(a) + frames_bytes(b),
    decreases b.len(),
{
    reveal_with_fuel(frames_bytes, 2);
    assert(seq![one].drop_last() =~= Seq::<Seq<u8>>::empty());
    assert(frames_bytes(seq![one]) =~= frame_bytes(one));
    if b.len() == 0 {
        assert(a + b =~= a);
        assert(frames_bytes(a) + frames_bytes(b) =~= frames_bytes(a));
    } else {
        assert((a + b).drop_last() =~= a + b.drop_last());
        frames_go_in_order(a, b.drop_last(), one);
        assert(frames_bytes(a) + (frames_bytes(b.drop_last()) + frame_bytes(b.last()))
            =~= frames_bytes(a) + frames_bytes(b.drop_last()) + frame_bytes(b.last()));
    }
}

/// What stands where in the two messages: an introduction is the rank and then
/// the framed address; the answer is the number of addresses and then each one,
/// framed, in the order of the ranks.
pub proof fn message_layouts(rank: int, addr: Seq<u8>, list: Seq<Seq<u8>>)
    requires
        0 <= rank < 0x1_0000_0000,
        list.len() < 0x1_0000_0000,
    ensures
        word_value(hello_bytes(rank, addr).take(4)) == rank,
        hello_bytes(rank, addr).skip(4) == frame_bytes(addr),
        word_value(table_bytes(list).take(4)) == list.len(),
        table_bytes(list).skip(4) == frames_bytes(list),
{
    word_reads_back(rank);
    word_reads_back(list.len() as int);
    assert(hello_bytes(rank, addr).take(4) =~= word_bytes(rank));
    assert(hello_bytes(rank, addr).skip(4) =~= frame_bytes(addr));
    assert(table_bytes(list).take(4) =~= word_bytes(list.len() as int));
    assert(table_bytes(list).skip(4) =~= frames_bytes(list));
}

/// The plain content of a list is that of its entries, in order.
pub proof fn list_view_is_in_order(list: Seq<Vec<u8>>)
    ensures
        list_view(list).len() == list.len(),
        forall|i: int| 0 <= i < list.len() ==> #[trigger] list_view(list)[i] == list[i]@,
        lengths_fit(list_view(list)) <==> forall|i: int|
            0 <= i < list.len() ==> (#[trigger] list[i])@.len() < 0x1_0000_0000,
{
    let view = list_view(list);
    if lengths_fit(view) {
        assert forall|i: int| 0 <= i < list.len() implies (#[trigger] list[i])@.len()
            < 0x1_0000_0000 by {
            assert(view[i].len() < 0x1_0000_0000);
        }
    }
}

/// A rank tries 200 times to reach rank 0, waiting 50 milliseconds after each
/// failure, and gives up after the last one; no failure loses what it knows.
pub proof fn connecting_gives_up_in_the_end(v: ExchangeView)
    ensures
        v.after_failure().stage is Backoff,
        v.after_failure().failures == v.failures + 1,
        v.after_failure().rank == v.rank,
        v.after_failure().size == v.size,
        v.after_failure().own == v.own,
        v.after_failure().addresses == v.addresses,
        v.stage is Backoff ==> {
            &&& v.after_done() is None <==> v.failures >= 200
            &&& v.after_done() matches Some(next) ==> {
                next.stage is Connect && next.failures == v.failures
            }
        },
        !(v.stage is Backoff) ==> v.after_done() is Some,
        CONNECT_ATTEMPTS == 200,
        CONNECT_BACKOFF_MS == 50,
{
}

/// What follows an action: rank 0 listens, accepts as long as there are others,
/// and answers them one after the other, from rank 1 to the last; the others
/// introduce themselves once connected, and then read the answer. No action
/// changes what is known.
pub proof fn actions_follow_in_order(v: ExchangeView)
    requires
        v.after_done() is Some,
    ensures
        ({
            let next = v.after_done()->0;
            &&& v.stage is Bind ==> if v.size > 1 {
                next.stage is Accept
            } else {
                next.stage is Done
            }
            &&& v.stage is Accept ==> next.stage is PeerRank && next.heard.len() == 0
            &&& v.stage matches Stage::Reply { to } ==> to < v.size <= usize::MAX
                ==> if to == v.size - 1 {
                next.stage is Done
            } else {
                next.stage matches Stage::Reply { to: later } && later == to + 1
            }
            &&& v.stage is Connect ==> next.stage is Hello
            &&& v.stage is Hello ==> next.stage is TableCount && next.heard.len() == 0
            &&& v.stage is Done ==> next.stage is Done
            &&& next.rank == v.rank
            &&& next.size == v.size
            &&& next.own == v.own
            &&& next.accepted == v.accepted
            &&& next.failures == v.failures
            &&& next.addresses == v.addresses
        }),
{
}

/// What is read, and how much: a number is four bytes, an address as many as
/// its length says.
pub proof fn reads_ask_for_what_comes(v: ExchangeView)
    ensures
        v.stage is PeerRank || v.stage is PeerLen || v.stage is TableCount || v.stage is TableLen
            ==> v.wanted() == Some(4int),
        v.stage matches Stage::PeerAddr { len, .. } ==> v.wanted() == Some(len as int),
        v.stage matches Stage::TableAddr { len } ==> v.wanted() == Some(len as int),
        v.stage is Bind || v.stage is Accept || v.stage is Reply || v.stage is Connect
            || v.stage is Backoff || v.stage is Hello || v.stage is Done ==> v.wanted() is None,
{
}

/// What rank 0 makes of what it reads: the rank, then the length, then the
/// address, which is kept under that rank and changes no other; only when as
/// many have introduced themselves as there are other ranks does it answer, and
/// then rank 1 first.
pub proof fn root_collects_every_address(v: ExchangeView, bytes: Seq<u8>)
    requires
        v.wanted() == Some(bytes.len() as int),
        v.stage is PeerRank || v.stage is PeerLen || v.stage is PeerAddr,
        v.stage matches Stage::PeerAddr { rank, .. } ==> rank < v.addresses.len(),
    ensures
        v.after_read(bytes) matches Some(next) && {
            &&& next.rank == v.rank
            &&& next.size == v.size
            &&& next.own == v.own
            &&& next.failures == v.failures
            &&& next.heard == v.heard + bytes
            &&& next.addresses.len() == v.addresses.len()
            &&& match v.stage {
                Stage::PeerRank => {
                    &&& next.stage matches Stage::PeerLen { rank } && rank == bytes[0] + 256 * (
                    bytes[1] + 256 * (bytes[2] + 256 * bytes[3]))
                    &&& next.addresses == v.addresses
                    &&& next.accepted == v.accepted
                },
                Stage::PeerLen { rank: peer } => {
                    &&& next.stage matches Stage::PeerAddr { rank, len } && rank == peer && len
                        == bytes[0] + 256 * (bytes[1] + 256 * (bytes[2] + 256 * bytes[3]))
                    &&& next.addresses == v.addresses
                    &&& next.accepted == v.accepted
                },
                Stage::PeerAddr { rank, .. } => {
                    &&& next.addresses[rank as int] == bytes
                    &&& forall|q: int|
                        0 <= q < v.addresses.len() && q != rank ==> #[trigger] next.addresses[q]
                            == v.addresses[q]
                    &&& next.accepted == v.accepted + 1
                    &&& if next.accepted >= v.size - 1 {
                        next.stage matches Stage::Reply { to } && to == 1
                    } else {
                        next.stage is Accept
                    }
                },
                _ => true,
            }
        },
{
    if bytes.len() == 4 {
        lemma_word_of(bytes);
    }
}

/// What another rank makes of what it reads: it goes on only if rank 0 counts
/// as many ranks as it does, and then takes the addresses in order, until it
/// has one of every rank.
pub proof fn others_take_every_address(v: ExchangeView, bytes: Seq<u8>)
    requires
        v.wanted() == Some(bytes.len() as int),
        v.stage is TableCount || v.stage is TableLen || v.stage is TableAddr,
    ensures
        v.after_read(bytes) is None <==> v.stage is TableCount && v.size != bytes[0] + 256 * (
        bytes[1] + 256 * (bytes[2] + 256 * bytes[3])),
        v.after_read(bytes) matches Some(next) ==> {
            &&& next.rank == v.rank
            &&& next.size == v.size
            &&& next.own == v.own
            &&& next.failures == v.failures
            &&& next.accepted == v.accepted
            &&& next.heard == v.heard + bytes
            &&& match v.stage {
                Stage::TableCount => {
                    &&& next.addresses == v.addresses
                    &&& if v.size > 0 {
                        next.stage is TableLen
                    } else {
                        next.stage is Done
                    }
                },
                Stage::TableLen => {
                    &&& next.addresses == v.addresses
                    &&& next.stage matches Stage::TableAddr { len } && len == bytes[0] + 256 * (
                    bytes[1] + 256 * (bytes[2] + 256 * bytes[3]))
                },
                Stage::TableAddr { .. } => {
                    &&& next.addresses.len() == v.addresses.len() + 1
                    &&& next.addresses.drop_last() == v.addresses
                    &&& next.addresses.last() == bytes
                    &&& if next.addresses.len() >= v.size {
                        next.stage is Done
                    } else {
                        next.stage is TableLen
                    }
                },
                _ => true,
            }
        },
{
    if bytes.len() == 4 {
        lemma_word_of(bytes);
    }
    if v.stage is TableAddr {
        assert(v.addresses.push(bytes).drop_last() =~= v.addresses);
    }
}

} // verus!
