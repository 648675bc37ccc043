use vstd::prelude::*;

verus! {

/// An opaque chain identifier (a block hash or a transaction id): a byte
/// string, compared only for equality.
#[derive(Debug)]
pub struct BlockHash {
    pub bytes: Vec<u8>,
}

impl View for BlockHash {
    type V = Seq<u8>;

    open spec fn view(&self) -> Seq<u8> {
        self.bytes@
    }
}

/// Byte-wise equality of two byte vectors.
pub fn bytes_eq(a: &Vec<u8>, b: &Vec<u8>) -> (r: bool)
    ensures
        r == (a@ == b@),
{
    if a.len() != b.len() {
        return false;
    }
    let n: usize = a.len();
    let mut i: usize = 0;
    while i < n
        invariant
            i <= n,
            n == a@.len(),
            n == b@.len(),
            forall|j: int| 0 <= j < i ==> a@[j] == b@[j],
        decreases n - i,
    {
        if a[i] != b[i] {
            return false;
        }
        i += 1;
    }
    proof {
        assert(a@ =~= b@);
    }
    true
}

/// Byte-wise copy of a byte vector.
pub fn clone_bytes(v: &Vec<u8>) -> (r: Vec<u8>)
    ensures
        r@ == v@,
{
    let n: usize = v.len();
    let mut out: Vec<u8> = Vec::new();
    let mut i: usize = 0;
    while i < n
        invariant
            i <= n,
            n == v@.len(),
            out@ == v@.take(i as int),
        decreases n - i,
    {
        out.push(v[i]);
        proof {
            assert(out@ =~= v@.take(i as int + 1));
        }
        i += 1;
    }
    proof {
        assert(v@.take(n as int) =~= v@);
    }
    out
}

impl Clone for BlockHash {
    fn clone(&self) -> (r: Self)
        ensures
            r@ == self@,
    {
        BlockHash { bytes: clone_bytes(&self.bytes) }
    }
}

impl PartialEq for BlockHash {
    fn eq(&self, other: &Self) -> (r: bool) {
        bytes_eq(&self.bytes, &other.bytes)
    }
}

impl vstd::std_specs::cmp::PartialEqSpecImpl for BlockHash {
    open spec fn obeys_eq_spec() -> bool {
        true
    }

    open spec fn eq_spec(&self, other: &Self) -> bool {
        self@ == other@
    }
}

/// The mathematical value of a [`Tx`].
#[verifier::ext_equal]
pub ghost struct TxView {
    pub txid: Seq<u8>,
    pub amount: int,
    pub time: int,
}

/// A transaction record: owned by the block that carries it, and deleted
/// with that block on rollback.  The amount is an integer count of the
/// smallest currency unit.
pub struct Tx {
    pub txid: Vec<u8>,
    pub amount: i64,
    pub time: u64,
}

impl View for Tx {
    type V = TxView;

    open spec fn view(&self) -> TxView {
        TxView { txid: self.txid@, amount: self.amount as int, time: self.time as int }
    }
}

impl Clone for Tx {
    fn clone(&self) -> (r: Self)
        ensures
            r@ == self@,
    {
        Tx { txid: clone_bytes(&self.txid), amount: self.amount, time: self.time }
    }
}

/// The mathematical value of a [`Block`].
#[verifier::ext_equal]
pub ghost struct BlockView {
    pub hash: Seq<u8>,
    pub prev_hash: Seq<u8>,
    pub height: int,
    pub time: int,
    pub txs: Seq<TxView>,
}

/// A block record: the header fields the mirror keeps, together with the
/// transactions the block owns.
pub struct Block {
    pub hash: BlockHash,
    pub prev_hash: BlockHash,
    pub height: u64,
    pub time: u64,
    pub txs: Vec<Tx>,
}

/// The sequence of transaction values held by a transaction vector.
pub open spec fn txs_view(v: Seq<Tx>) -> Seq<TxView> {
    v.map_values(|t: Tx| t@)
}

impl View for Block {
    type V = BlockView;

    open spec fn view(&self) -> BlockView {
        BlockView {
            hash: self.hash@,
            prev_hash: self.prev_hash@,
            height: self.height as int,
            time: self.time as int,
            txs: txs_view(self.txs@),
        }
    }
}

/// The sequence of block values held by a block vector.
pub open spec fn chain_view(v: Seq<Block>) -> Seq<BlockView> {
    v.map_values(|b: Block| b@)
}

/// Element-wise copy of a transaction vector.
pub fn clone_txs(v: &Vec<Tx>) -> (r: Vec<Tx>)
    ensures
        txs_view(r@) == txs_view(v@),
{
    let n: usize = v.len();
    let mut out: Vec<Tx> = Vec::new();
    let mut i: usize = 0;
    while i < n
        invariant
            i <= n,
            n == v@.len(),
            out@.len() == i,
            forall|j: int| 0 <= j < i ==> (#[trigger] out@[j])@ == v@[j]@,
        decreases n - i,
    {
        let c = v[i].clone();
        out.push(c);
        i += 1;
    }
    proof {
        assert forall|j: int| 0 <= j < v@.len() implies txs_view(out@)[j] == txs_view(v@)[j] by {
            assert(out@[j]@ == v@[j]@);
        }
        assert(txs_view(out@) =~= txs_view(v@));
    }
    out
}

impl Clone for Block {
    fn clone(&self) -> (r: Self)
        ensures
            r@ == self@,
    {
        Block {
            hash: self.hash.clone(),
            prev_hash: self.prev_hash.clone(),
            height: self.height,
            time: self.time,
            txs: clone_txs(&self.txs),
        }
    }
}

} // verus!
