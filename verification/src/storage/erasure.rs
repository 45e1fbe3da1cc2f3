//! Reed-Solomon erasure coding of extents.

use crate::collections::{byte_views, copy_bytes};
use crate::text::{decimal, decimal_text, join2, join4, join5};
use reed_solomon_erasure::galois_8::ReedSolomon;
use vstd::arithmetic::div_mod::{lemma_fundamental_div_mod, lemma_mod_bound};
use vstd::prelude::*;

verus! {

/// Errors produced by the erasure codec.
#[derive(Clone, Debug, PartialEq, Eq)]
pub enum ErasureError {
    /// Invalid codec parameters (k or m < 1), or a wrong number of chunks.
    InvalidParams(String),
    /// Supplied data is empty.
    EmptyData,
    /// Not enough shards available for reconstruction.
    InsufficientShards { available: usize, required: usize },
    /// Internal Reed-Solomon error.
    Internal(String),
}

impl ErasureError {
    /// What the error says.
    pub open spec fn text(self) -> Seq<char> {
        match self {
            ErasureError::InvalidParams(msg) => "invalid erasure params: "@ + msg@,
            ErasureError::EmptyData => "empty data"@,
            ErasureError::InsufficientShards { available, required } => "insufficient shards: "@
                + decimal(available as nat) + " available, "@ + decimal(required as nat)
                + " required"@,
            ErasureError::Internal(msg) => "internal erasure error: "@ + msg@,
        }
    }

    /// Whether the error is of invalid parameters, in these words.
    pub open spec fn says_invalid(self, text: Seq<char>) -> bool {
        self is InvalidParams && self->InvalidParams_0@ == text
    }

    /// Whether the error is internal, in these words.
    pub open spec fn says_internal(self, text: Seq<char>) -> bool {
        self is Internal && self->Internal_0@ == text
    }

    /// What the error says.
    pub fn to_text(&self) -> (s: String)
        ensures
            s@ == self.text(),
    {
        match self {
            ErasureError::InvalidParams(msg) => join2("invalid erasure params: ", msg.as_str()),
            ErasureError::EmptyData => "empty data".to_owned(),
            ErasureError::InsufficientShards { available, required } => join5(
                "insufficient shards: ",
                decimal_text(*available as u64).as_str(),
                " available, ",
                decimal_text(*required as u64).as_str(),
                " required",
            ),
            ErasureError::Internal(msg) => join2("internal erasure error: ", msg.as_str()),
        }
    }
}

/// The parity shards that `ReedSolomon::encode` computes for `k` data shards with a
/// codec of `k` data and `m` parity shards.
pub uninterp spec fn rs_parity(k: nat, m: nat, data: Seq<Seq<u8>>) -> Seq<Seq<u8>>;

/// The shards that `ReedSolomon::reconstruct` leaves behind with a codec of `k` data
/// and `m` parity shards.
pub uninterp spec fn rs_rebuilt(k: nat, m: nat, shards: Seq<Option<Seq<u8>>>) -> Seq<Seq<u8>>;

/// The most shards that a codec over bytes can have.
pub const MAX_SHARDS: usize = 256;

/// All shards, data and parity, of some data shards.
pub open spec fn code_word(k: nat, m: nat, data: Seq<Seq<u8>>) -> Seq<Seq<u8>> {
    data + rs_parity(k, m, data)
}

/// Whether all shards have the given length.
pub open spec fn uniform(shards: Seq<Seq<u8>>, len: nat) -> bool {
    forall|i: int| 0 <= i < shards.len() ==> (#[trigger] shards[i]).len() == len
}

/// The views of shards of which some may be missing.
pub open spec fn shard_views(v: Seq<Option<Vec<u8>>>) -> Seq<Option<Seq<u8>>> {
    v.map_values(
        |c: Option<Vec<u8>>|
            match c {
                Some(b) => Some(b@),
                None => None,
            },
    )
}

/// How many shards are there.
pub open spec fn present_count(shards: Seq<Option<Seq<u8>>>) -> nat
    decreases shards.len(),
{
    if shards.len() == 0 {
        0
    } else {
        present_count(shards.drop_last()) + (if shards.last() is Some {
            1nat
        } else {
            0nat
        })
    }
}

/// Whether every shard that is there is the one of the code word.
pub open spec fn part_of(shards: Seq<Option<Seq<u8>>>, word: Seq<Seq<u8>>) -> bool {
    &&& shards.len() == word.len()
    &&& forall|i: int|
        0 <= i < shards.len() && (#[trigger] shards[i]) is Some ==> shards[i]->0 == word[i]
}

/// What the codec finds wrong with the sizes of the shards, looking at them in order:
/// one that is there is empty, or has another length than one before it.
pub open spec fn size_fault(shards: Seq<Option<Seq<u8>>>) -> Option<Seq<char>>
    decreases shards.len(),
{
    if shards.len() == 0 {
        None
    } else {
        let front = shards.drop_last();
        match (size_fault(front), shards.last()) {
            (Some(fault), _) => Some(fault),
            (None, None) => None,
            (None, Some(b)) => if b.len() == 0 {
                Some("The first shard provided is of zero length"@)
            } else if exists|i: int|
                0 <= i < front.len() && (#[trigger] front[i]) is Some && front[i]->0.len()
                    != b.len() {
                Some("At least one of the provided shards is not of the correct size"@)
            } else {
                None
            },
        }
    }
}

/// Whether a codec can be made: `ReedSolomon::new`.  The contract says that it can
/// exactly where there are at most 256 shards, and what the error says otherwise.
#[verifier::external_body]
fn rs_check(k: usize, m: usize) -> (r: Result<(), String>)
    requires
        1 <= k,
        1 <= m,
        k + m <= usize::MAX,
    ensures
        r is Ok <==> k + m <= MAX_SHARDS,
        r matches Err(e) ==> e@
            == "The number of provided shards is greater than the one in codec"@,
{
    ReedSolomon::new(k, m).map(|_codec| ()).map_err(|e| e.to_string())
}

/// Fills in the parity shards: `ReedSolomon::encode` with a codec of `k` data and `m`
/// parity shards.  The contract says that it succeeds on shards of one length that is
/// not zero, keeps the data shards, and writes parity shards of that length that are a
/// function of the data shards.  It does not say which function.
#[verifier::external_body]
fn rs_encode(k: usize, m: usize, shards: &mut Vec<Vec<u8>>) -> (r: Result<(), String>)
    requires
        1 <= k,
        1 <= m,
        k + m <= MAX_SHARDS,
        old(shards)@.len() == k + m,
        old(shards)@[0]@.len() > 0,
        uniform(byte_views(old(shards)@), old(shards)@[0]@.len()),
    ensures
        r is Ok,
        byte_views(final(shards)@) == code_word(
            k as nat,
            m as nat,
            byte_views(old(shards)@).take(k as int),
        ),
        rs_parity(k as nat, m as nat, byte_views(old(shards)@).take(k as int)).len() == m,
        uniform(byte_views(final(shards)@), old(shards)@[0]@.len()),
{
    let codec = ReedSolomon::new(k, m).map_err(|e| e.to_string())?;
    codec.encode(shards).map_err(|e| e.to_string())
}

/// Fills in the missing shards: `ReedSolomon::reconstruct` with a codec of `k` data and
/// `m` parity shards.  The contract says that it fails exactly where a shard that is
/// there is empty or of another length, or where fewer than `k` are there; that it
/// keeps the shards that are there and gives all shards one length; and that shards
/// that are part of a code word are completed to the data shards of that code word.
#[verifier::external_body]
fn rs_reconstruct(k: usize, m: usize, shards: &mut Vec<Option<Vec<u8>>>) -> (r: Result<(), String>)
    requires
        1 <= k,
        1 <= m,
        k + m <= MAX_SHARDS,
        old(shards)@.len() == k + m,
    ensures
        match r {
            Err(e) => match size_fault(shard_views(old(shards)@)) {
                Some(fault) => e@ == fault,
                None => present_count(shard_views(old(shards)@)) < k && e@
                    == "The number of shards present is smaller than number of parity shards, cannot reconstruct missing shards"@,
            },
            Ok(_) => {
                let given = shard_views(old(shards)@);
                let rebuilt = rs_rebuilt(k as nat, m as nat, given);
                &&& size_fault(given) is None
                &&& present_count(given) >= k
                &&& shard_views(final(shards)@) == rebuilt.map_values(|b: Seq<u8>| Some(b))
                &&& part_of(given, rebuilt)
                &&& exists|len: nat| len > 0 && #[trigger] uniform(rebuilt, len)
                &&& forall|data: Seq<Seq<u8>>, len: nat|
                    data.len() == k && len > 0 && #[trigger] uniform(data, len) && part_of(
                        given,
                        #[trigger] code_word(k as nat, m as nat, data),
                    ) ==> rebuilt.take(k as int) == data
            },
        },
{
    let codec = ReedSolomon::new(k, m).map_err(|e| e.to_string())?;
    codec.reconstruct(shards).map_err(|e| e.to_string())
}

/// The number of bytes in each of `k` chunks of `len` bytes.
pub open spec fn chunk_len(len: nat, k: nat) -> nat {
    ((len + k - 1) / k as int) as nat
}

/// Data cut into `k` chunks of equal length, the end padded with zeros.
pub open spec fn chunks_of(data: Seq<u8>, k: nat) -> Seq<Seq<u8>> {
    let size = chunk_len(data.len(), k);
    Seq::new(
        k,
        |i: int|
            Seq::new(
                size,
                |j: int|
                    if i * size + j < data.len() {
                        data[i * size + j]
                    } else {
                        0u8
                    },
            ),
    )
}

/// Data padded with zeros to a length.
pub open spec fn padded(data: Seq<u8>, len: nat) -> Seq<u8> {
    Seq::new(
        len,
        |i: int|
            if i < data.len() {
                data[i]
            } else {
                0u8
            },
    )
}

/// Shards one after another.
pub open spec fn joined(shards: Seq<Seq<u8>>) -> Seq<u8>
    decreases shards.len(),
{
    if shards.len() == 0 {
        Seq::empty()
    } else {
        joined(shards.drop_last()) + shards.last()
    }
}

proof fn lemma_chunk_len(len: nat, k: nat)
    requires
        k >= 1,
    ensures
        len <= k * chunk_len(len, k),
        k * chunk_len(len, k) < len + k,
        len > 0 ==> chunk_len(len, k) > 0,
{
    let a = len + k - 1;
    lemma_fundamental_div_mod(a, k as int);
    lemma_mod_bound(a, k as int);
    assert(chunk_len(len, k) == a / k as int);
    if len > 0 {
        assert(a / k as int >= 1) by (nonlinear_arith)
            requires
                a >= k,
                k >= 1,
        ;
    }
}

proof fn lemma_joined_len(shards: Seq<Seq<u8>>, len: nat)
    requires
        uniform(shards, len),
    ensures
        joined(shards).len() == shards.len() * len,
    decreases shards.len(),
{
    if shards.len() > 0 {
        let front = shards.drop_last();
        let n = front.len() as int;
        assert forall|i: int| 0 <= i < front.len() implies (#[trigger] front[i]).len() == len by {
            assert(front[i] == shards[i]);
        }
        lemma_joined_len(front, len);
        assert(shards[n].len() == len);
        assert(n * len + len == (n + 1) * len) by (nonlinear_arith);
    } else {
        assert(shards.len() * len == 0) by (nonlinear_arith)
            requires
                shards.len() == 0,
        ;
    }
}

proof fn lemma_joined_at(shards: Seq<Seq<u8>>, len: nat, i: int, j: int)
    requires
        uniform(shards, len),
        0 <= i < shards.len(),
        0 <= j < len,
    ensures
        0 <= i * len + j < joined(shards).len(),
        shards[i][j] == joined(shards)[i * len + j],
    decreases shards.len(),
{
    let front = shards.drop_last();
    let n = front.len() as int;
    assert forall|x: int| 0 <= x < front.len() implies (#[trigger] front[x]).len() == len by {
        assert(front[x] == shards[x]);
    }
    lemma_joined_len(front, len);
    assert(shards[n].len() == len);
    assert(0 <= i * len) by (nonlinear_arith)
        requires
            0 <= i,
            0 <= len,
    ;
    if i < n {
        lemma_joined_at(front, len, i, j);
        assert(front[i] == shards[i]);
    }
}

/// Cutting data into chunks and putting the chunks together again gives the data,
/// padded with zeros to a whole number of chunks.
pub proof fn chunks_join_to_the_data(data: Seq<u8>, k: nat)
    requires
        k >= 1,
    ensures
        uniform(chunks_of(data, k), chunk_len(data.len(), k)),
        data.len() <= k * chunk_len(data.len(), k),
        joined(chunks_of(data, k)) == padded(data, k * chunk_len(data.len(), k)),
        joined(chunks_of(data, k)).take(data.len() as int) == data,
{
    let size = chunk_len(data.len(), k);
    let chunks = chunks_of(data, k);
    lemma_chunk_len(data.len(), k);
    lemma_joined_len(chunks, size);
    let whole = joined(chunks);
    assert forall|p: int| 0 <= p < whole.len() implies whole[p] == padded(data, k * size)[p] by {
        if size == 0 {
            assert(k * size == 0) by (nonlinear_arith)
                requires
                    size == 0,
            ;
        } else {
            let i = p / size as int;
            let j = p % size as int;
            lemma_fundamental_div_mod(p, size as int);
            lemma_mod_bound(p, size as int);
            assert(size * i == i * size) by (nonlinear_arith);
            assert(0 <= i < k) by (nonlinear_arith)
                requires
                    p == size * i + j,
                    0 <= j < size,
                    0 <= p < k * size,
                    size > 0,
            ;
            lemma_joined_at(chunks, size, i, j);
        }
    }
    assert(whole =~= padded(data, k * size));
    assert(whole.take(data.len() as int) =~= data);
}

proof fn lemma_no_size_fault(shards: Seq<Option<Seq<u8>>>, word: Seq<Seq<u8>>, len: nat)
    requires
        part_of(shards, word),
        uniform(word, len),
        len > 0,
    ensures
        size_fault(shards) is None,
    decreases shards.len(),
{
    if shards.len() > 0 {
        let front = shards.drop_last();
        let front_word = word.drop_last();
        assert forall|i: int| 0 <= i < front.len() && (#[trigger] front[i]) is Some implies front[i]->0
            == front_word[i] by {
            assert(shards[i] == front[i]);
        }
        assert forall|i: int| 0 <= i < front_word.len() implies (#[trigger] front_word[i]).len()
            == len by {
            assert(word[i] == front_word[i]);
        }
        lemma_no_size_fault(front, front_word, len);
        let last = shards.len() - 1;
        if shards[last] is Some {
            assert(word[last].len() == len);
            assert forall|i: int| 0 <= i < front.len() && (#[trigger] front[i]) is Some implies front[i]->0.len()
                == len by {
                assert(shards[i] == front[i]);
                assert(word[i].len() == len);
            }
        }
    }
}

/// Any `m` chunks of an encoding may be lost: what is left is enough for the decoder,
/// and it finds nothing wrong with it.
pub proof fn losing_parity_many_chunks_is_survivable(
    codec: ErasureCodec,
    data: Seq<u8>,
    left: Seq<Option<Seq<u8>>>,
)
    requires
        codec.wf(),
        data.len() > 0,
        uniform(codec.encoding(data), chunk_len(data.len(), codec.data_shards as nat)),
        codec.encoding(data).len() == codec.data_shards + codec.parity_shards,
        part_of(left, codec.encoding(data)),
        left.len() - present_count(left) <= codec.parity_shards,
    ensures
        present_count(left) >= codec.data_shards,
        size_fault(left) is None,
{
    lemma_chunk_len(data.len(), codec.data_shards as nat);
    lemma_no_size_fault(
        left,
        codec.encoding(data),
        chunk_len(data.len(), codec.data_shards as nat),
    );
}

/// A copy of chunks of which some may be missing.
fn copy_chunks(chunks: &[Option<Vec<u8>>]) -> (r: Vec<Option<Vec<u8>>>)
    ensures
        shard_views(r@) == shard_views(chunks@),
{
    let mut r: Vec<Option<Vec<u8>>> = Vec::new();
    let mut i: usize = 0;
    while i < chunks.len()
        invariant
            i <= chunks@.len(),
            r@.len() == i,
            forall|j: int| 0 <= j < i ==> shard_views(r@)[j] == #[trigger] shard_views(chunks@)[j],
        decreases chunks@.len() - i,
    {
        let ghost had = r@;
        let chunk: Option<Vec<u8>> = match &chunks[i] {
            Some(b) => Some(copy_bytes(b.as_slice())),
            None => None,
        };
        r.push(chunk);
        i = i + 1;
        assert forall|j: int| 0 <= j < i implies shard_views(r@)[j]
            == #[trigger] shard_views(chunks@)[j] by {
            if j < i - 1 {
                assert(shard_views(had)[j] == shard_views(chunks@)[j]);
                assert(r@[j] == had[j]);
            }
        }
    }
    assert(shard_views(r@) =~= shard_views(chunks@));
    r
}

fn count_present(chunks: &[Option<Vec<u8>>]) -> (r: usize)
    ensures
        r == present_count(shard_views(chunks@)),
        r <= chunks@.len(),
{
    let mut n: usize = 0;
    let mut i: usize = 0;
    while i < chunks.len()
        invariant
            i <= chunks@.len(),
            n <= i,
            n == present_count(shard_views(chunks@).take(i as int)),
        decreases chunks@.len() - i,
    {
        if chunks[i].is_some() {
            n = n + 1;
        }
        i = i + 1;
        assert(shard_views(chunks@).take(i as int).drop_last() =~= shard_views(chunks@).take(i - 1));
    }
    assert(shard_views(chunks@).take(chunks@.len() as int) =~= shard_views(chunks@));
    n
}

/// Reed-Solomon erasure codec for encoding and decoding data into k data
/// shards and m parity shards.
#[derive(Clone, Copy, Debug)]
pub struct ErasureCodec {
    pub data_shards: usize,
    pub parity_shards: usize,
}

impl ErasureCodec {
    /// There is at least one shard of each kind, and no more than a codec over bytes
    /// can have.
    pub open spec fn wf(&self) -> bool {
        &&& self.data_shards >= 1
        &&& self.parity_shards >= 1
        &&& self.data_shards + self.parity_shards <= MAX_SHARDS
    }

    /// The chunks that the codec makes of some data: the data in equal parts, and
    /// the parity of those.
    pub open spec fn encoding(&self, data: Seq<u8>) -> Seq<Seq<u8>> {
        code_word(
            self.data_shards as nat,
            self.parity_shards as nat,
            chunks_of(data, self.data_shards as nat),
        )
    }

    /// Create a new Reed-Solomon codec with `data_shards` (k) data shards
    /// and `parity_shards` (m) parity shards.
    ///
    /// Both k and m must be >= 1.
    pub fn new(data_shards: usize, parity_shards: usize) -> (r: Result<Self, ErasureError>)
        requires
            data_shards + parity_shards <= usize::MAX,
        ensures
            r is Ok <==> data_shards >= 1 && parity_shards >= 1 && data_shards + parity_shards
                <= 256,
            match r {
                Ok(codec) => {
                    &&& codec.data_shards == data_shards
                    &&& codec.parity_shards == parity_shards
                    &&& codec.wf()
                },
                Err(e) => if data_shards < 1 {
                    e.says_invalid("data_shards must be >= 1"@)
                } else if parity_shards < 1 {
                    e.says_invalid("parity_shards must be >= 1"@)
                } else {
                    data_shards + parity_shards > MAX_SHARDS && e.says_internal(
                        "failed to create RS codec: "@
                            + "The number of provided shards is greater than the one in codec"@,
                    )
                },
            },
    {
        if data_shards < 1 {
            return Err(ErasureError::InvalidParams("data_shards must be >= 1".to_owned()));
        }
        if parity_shards < 1 {
            return Err(ErasureError::InvalidParams("parity_shards must be >= 1".to_owned()));
        }
        match rs_check(data_shards, parity_shards) {
            Ok(_) => Ok(ErasureCodec { data_shards, parity_shards }),
            Err(e) => Err(
                ErasureError::Internal(join2("failed to create RS codec: ", e.as_str())),
            ),
        }
    }

    /// Total number of shards (k + m).
    pub fn total_shards(&self) -> (r: usize)
        requires
            self.wf(),
        ensures
            r == self.data_shards + self.parity_shards,
    {
        self.data_shards + self.parity_shards
    }

    /// Number of data shards (k).
    pub fn data_shards(&self) -> (r: usize)
        ensures
            r == self.data_shards,
    {
        self.data_shards
    }

    /// Number of parity shards (m).
    pub fn parity_shards(&self) -> (r: usize)
        ensures
            r == self.parity_shards,
    {
        self.parity_shards
    }

    /// Compute the chunk size for a given data length.
    ///
    /// Each chunk will be `ceil(data_len / k)` bytes.
    pub fn chunk_size(&self, data_len: usize) -> (r: usize)
        requires
            self.wf(),
        ensures
            r == chunk_len(data_len as nat, self.data_shards as nat),
    {
        let k = self.data_shards;
        let whole = data_len / k;
        let rest = data_len % k;
        proof {
            let n = data_len as int;
            let d = k as int;
            lemma_fundamental_div_mod(n, d);
            if rest > 0 {
                assert((n + d - 1) / d == whole + 1) by (nonlinear_arith)
                    requires
                        n == d * whole + rest,
                        0 < rest < d,
                ;
                assert(whole < usize::MAX) by (nonlinear_arith)
                    requires
                        n == d * whole + rest,
                        rest > 0,
                        d >= 1,
                        n <= usize::MAX,
                        whole >= 0,
                ;
            } else {
                assert((n + d - 1) / d == whole) by (nonlinear_arith)
                    requires
                        n == d * whole,
                        d >= 1,
                ;
            }
        }
        if rest > 0 {
            whole + 1
        } else {
            whole
        }
    }

    /// One data chunk: a part of the data, padded with zeros.
    fn data_chunk(&self, data: &[u8], size: usize, start: usize) -> (r: Vec<u8>)
        requires
            start <= data@.len(),
        ensures
            r@ == Seq::new(
                size as nat,
                |j: int|
                    if start + j < data@.len() {
                        data@[start + j]
                    } else {
                        0u8
                    },
            ),
    {
        let mut chunk: Vec<u8> = Vec::with_capacity(size);
        let mut j: usize = 0;
        while j < size
            invariant
                j <= size,
                start <= data@.len(),
                chunk@.len() == j,
                forall|x: int|
                    0 <= x < j ==> #[trigger] chunk@[x] == (if start + x < data@.len() {
                        data@[start + x]
                    } else {
                        0u8
                    }),
            decreases size - j,
        {
            if j < data.len() - start {
                chunk.push(data[start + j]);
            } else {
                chunk.push(0);
            }
            j = j + 1;
        }
        assert(chunk@ =~= Seq::new(
            size as nat,
            |x: int|
                if start + x < data@.len() {
                    data@[start + x]
                } else {
                    0u8
                },
        ));
        chunk
    }

    /// Encode data into k+m chunks.
    ///
    /// The data is split into k equal-sized chunks (padded with zeros if
    /// necessary), and m parity chunks are computed.
    ///
    /// Returns k+m chunks where chunks 0..k are data and k..k+m are parity.
    pub fn encode(&self, data: &[u8]) -> (r: Result<Vec<Vec<u8>>, ErasureError>)
        requires
            self.wf(),
        ensures
            data@.len() == 0 ==> r == Err::<Vec<Vec<u8>>, ErasureError>(ErasureError::EmptyData),
            data@.len() > 0 ==> {
                &&& r is Ok
                &&& byte_views(r->Ok_0@) == self.encoding(data@)
                &&& r->Ok_0@.len() == self.data_shards + self.parity_shards
                &&& uniform(
                    byte_views(r->Ok_0@),
                    chunk_len(data@.len(), self.data_shards as nat),
                )
            },
    {
        if data.len() == 0 {
            return Err(ErasureError::EmptyData);
        }
        let k = self.data_shards;
        let size = self.chunk_size(data.len());
        let ghost expected = chunks_of(data@, k as nat);
        proof {
            lemma_chunk_len(data@.len(), k as nat);
        }
        let mut shards: Vec<Vec<u8>> = Vec::with_capacity(self.total_shards());
        let mut start: usize = 0;
        let mut i: usize = 0;
        while i < k
            invariant
                i <= k,
                k == self.data_shards,
                size == chunk_len(data@.len(), k as nat),
                expected == chunks_of(data@, k as nat),
                shards@.len() == i,
                start == (if i * size < data@.len() {
                    i * size
                } else {
                    data@.len() as int
                }),
                forall|x: int| 0 <= x < i ==> (#[trigger] shards@[x])@ == expected[x],
            decreases k - i,
        {
            let chunk = self.data_chunk(data, size, start);
            proof {
                assert(0 <= i * size) by (nonlinear_arith)
                    requires
                        0 <= i,
                        0 <= size,
                ;
                assert(chunk@ =~= expected[i as int]);
                assert((i + 1) * size == i * size + size) by (nonlinear_arith);
            }
            shards.push(chunk);
            if size <= data.len() - start {
                start = start + size;
            } else {
                start = data.len();
            }
            i = i + 1;
        }
        let mut p: usize = 0;
        while p < self.parity_shards
            invariant
                p <= self.parity_shards,
                k == self.data_shards,
                shards@.len() == k + p,
                size == chunk_len(data@.len(), k as nat),
                expected == chunks_of(data@, k as nat),
                forall|x: int| 0 <= x < k ==> (#[trigger] shards@[x])@ == expected[x],
                forall|x: int| 0 <= x < k + p ==> (#[trigger] shards@[x])@.len() == size,
            decreases self.parity_shards - p,
        {
            shards.push(self.data_chunk(data, size, data.len()));
            p = p + 1;
        }
        proof {
            assert(byte_views(shards@).take(k as int) =~= expected);
            assert forall|x: int| 0 <= x < byte_views(shards@).len() implies (
            #[trigger] byte_views(shards@)[x]).len() == size by {
                assert(byte_views(shards@)[x] == shards@[x]@);
            }
            assert(shards@[0]@.len() == size);
        }
        match rs_encode(k, self.parity_shards, &mut shards) {
            Ok(_) => {
                assert(byte_views(shards@).len() == shards@.len());
                Ok(shards)
            },
            Err(e) => Err(ErasureError::Internal(join2("encode failed: ", e.as_str()))),
        }
    }

    /// Decode data from k+m shard slots.
    ///
    /// `chunks` must have exactly k+m entries.  `Some(data)` means the chunk
    /// is available; `None` means it is missing.  At least k chunks must be
    /// present for successful reconstruction.
    ///
    /// Returns the data chunks one after another: the original data with the zeros
    /// that it was padded with.  Where at least k chunks of an encoding are handed
    /// in, and no others, that is what was encoded.
    pub fn decode(&self, chunks: &[Option<Vec<u8>>]) -> (r: Result<Vec<u8>, ErasureError>)
        requires
            self.wf(),
        ensures
            ({
                let k = self.data_shards as nat;
                let m = self.parity_shards as nat;
                let given = shard_views(chunks@);
                if chunks@.len() != k + m {
                    r is Err && r->Err_0.says_invalid(
                        "expected "@ + decimal(k + m) + " chunks, got "@ + decimal(chunks@.len()),
                    )
                } else if present_count(given) < k {
                    r == Err::<Vec<u8>, ErasureError>(
                        ErasureError::InsufficientShards {
                            available: present_count(given) as usize,
                            required: self.data_shards,
                        },
                    )
                } else if size_fault(given) is Some {
                    r is Err && r->Err_0.says_internal(
                        "reconstruct failed: "@ + size_fault(given)->0,
                    )
                } else {
                    &&& r is Ok
                    &&& r->Ok_0@ == joined(rs_rebuilt(k, m, given).take(k as int))
                    &&& forall|data: Seq<u8>|
                        data.len() > 0 && part_of(given, #[trigger] self.encoding(data))
                            ==> r->Ok_0@ == padded(data, k * chunk_len(data.len(), k))
                }
            }),
    {
        let total = self.total_shards();
        if chunks.len() != total {
            return Err(
                ErasureError::InvalidParams(
                    join4(
                        "expected ",
                        decimal_text(total as u64).as_str(),
                        " chunks, got ",
                        decimal_text(chunks.len() as u64).as_str(),
                    ),
                ),
            );
        }
        let available = count_present(chunks);
        if available < self.data_shards {
            return Err(
                ErasureError::InsufficientShards { available, required: self.data_shards },
            );
        }
        let ghost k = self.data_shards as nat;
        let ghost m = self.parity_shards as nat;
        let ghost given = shard_views(chunks@);
        let mut shards = copy_chunks(chunks);
        assert(shards@.len() == shard_views(shards@).len());
        match rs_reconstruct(self.data_shards, self.parity_shards, &mut shards) {
            Ok(_) => {},
            Err(e) => {
                return Err(ErasureError::Internal(join2("reconstruct failed: ", e.as_str())));
            },
        }
        let ghost rebuilt = rs_rebuilt(k, m, given);
        assert(shards@.len() == shard_views(shards@).len());
        assert(rebuilt.len() == k + m);
        let mut result: Vec<u8> = Vec::new();
        let mut i: usize = 0;
        assert(rebuilt.take(0) =~= Seq::empty());
        while i < self.data_shards
            invariant
                i <= self.data_shards,
                self.data_shards <= shards@.len(),
                shards@.len() == rebuilt.len(),
                shard_views(shards@) == rebuilt.map_values(|b: Seq<u8>| Some(b)),
                result@ == joined(rebuilt.take(i as int)),
            decreases self.data_shards - i,
        {
            proof {
                assert(shard_views(shards@)[i as int] == Some(rebuilt[i as int]));
                assert(rebuilt.take(i + 1).drop_last() =~= rebuilt.take(i as int));
            }
            match &shards[i] {
                Some(b) => {
                    let mut part = copy_bytes(b.as_slice());
                    result.append(&mut part);
                },
                None => {
                    assert(false);
                },
            }
            i = i + 1;
        }
        proof {
            assert forall|data: Seq<u8>|
                data.len() > 0 && part_of(
                    given,
                    #[trigger] self.encoding(data),
                ) implies result@ == padded(data, k * chunk_len(data.len(), k)) by {
                chunks_join_to_the_data(data, k);
                lemma_chunk_len(data.len(), k);
                assert(uniform(chunks_of(data, k), chunk_len(data.len(), k)));
                assert(part_of(given, code_word(k, m, chunks_of(data, k))));
            }
        }
        Ok(result)
    }
}

/// Chunks are just long enough: the data fits in them, and would not fit in shorter ones.
pub proof fn chunks_are_just_long_enough(len: nat, k: nat)
    requires
        k >= 1,
    ensures
        k * chunk_len(len, k) >= len,
        len > 0 ==> k * (chunk_len(len, k) - 1) < len,
        len == 0 ==> chunk_len(len, k) == 0,
{
    let n = (len + k - 1) / k as int;
    vstd::arithmetic::div_mod::lemma_fundamental_div_mod(len + k - 1, k as int);
    vstd::arithmetic::div_mod::lemma_div_pos_is_pos(len + k - 1, k as int);
    let rest = (len + k - 1) % k as int;
    assert(k * (n - 1) == k * n - k) by (nonlinear_arith);
    if len == 0 {
        vstd::arithmetic::div_mod::lemma_small_mod((k - 1) as nat, k);
        assert(k * n == 0);
        assert(n == 0) by (nonlinear_arith)
            requires
                k * n == 0,
                k >= 1,
        ;
    }
}

/// Padding keeps the data and adds only zeros.
pub proof fn padding_adds_only_zeros(data: Seq<u8>, len: nat)
    requires
        data.len() <= len,
    ensures
        padded(data, len).len() == len,
        padded(data, len).take(data.len() as int) == data,
        forall|i: int| data.len() <= i < len ==> #[trigger] padded(data, len)[i] == 0,
{
    assert(padded(data, len).take(data.len() as int) =~= data);
}

/// The first chunks of an encoding are the data itself, cut into equal parts: put together
/// they begin with the data, and only zeros follow.
pub proof fn data_chunks_hold_the_data(codec: ErasureCodec, data: Seq<u8>, i: int)
    requires
        codec.wf(),
        0 <= i < data.len(),
    ensures
        ({
            let k = codec.data_shards as nat;
            let size = chunk_len(data.len(), k) as int;
            &&& size > 0
            &&& 0 <= i / size < k
            &&& codec.encoding(data).len() >= k
            &&& codec.encoding(data)[i / size].len() == size
            &&& codec.encoding(data)[i / size][i % size] == data[i]
        }),
{
    let k = codec.data_shards as nat;
    let size = chunk_len(data.len(), k) as int;
    chunks_are_just_long_enough(data.len(), k);
    assert(size > 0) by (nonlinear_arith)
        requires
            k * size >= data.len(),
            data.len() > 0,
            size >= 0,
    ;
    vstd::arithmetic::div_mod::lemma_fundamental_div_mod(i, size);
    vstd::arithmetic::div_mod::lemma_div_pos_is_pos(i, size);
    assert(i / size < k) by (nonlinear_arith)
        requires
            i == size * (i / size) + i % size,
            0 <= i % size,
            i < k * size,
            size > 0,
    ;
    assert((i / size) * size == size * (i / size)) by (nonlinear_arith);
    assert(codec.encoding(data)[i / size] == chunks_of(data, k)[i / size]);
}

/// The shards that are there are counted, each once.
pub proof fn shards_that_are_there_count(shards: Seq<Option<Seq<u8>>>)
    ensures
        present_count(shards) == shards.filter(|s: Option<Seq<u8>>| s is Some).len(),
    decreases shards.len(),
{
    reveal(Seq::filter);
    if shards.len() > 0 {
        shards_that_are_there_count(shards.drop_last());
    }
}

/// Nothing is wrong with the sizes of shards exactly where all that are there have the same
/// length, which is not zero.
pub proof fn shards_fit_exactly_where_sizes_agree(shards: Seq<Option<Seq<u8>>>)
    ensures
        size_fault(shards) is None <==> {
            &&& forall|i: int|
                0 <= i < shards.len() && (#[trigger] shards[i]) is Some ==> shards[i]->0.len() > 0
            &&& forall|i: int, j: int|
                0 <= i < j < shards.len() && (#[trigger] shards[i]) is Some && (
                #[trigger] shards[j]) is Some ==> shards[i]->0.len() == shards[j]->0.len()
        },
    decreases shards.len(),
{
    if shards.len() > 0 {
        let front = shards.drop_last();
        let last = shards.len() - 1;
        shards_fit_exactly_where_sizes_agree(front);
        assert(shards.last() == shards[last]);
        assert forall|i: int| 0 <= i < front.len() implies front[i] == #[trigger] shards[i] by {}
        if size_fault(shards) is None {
            assert forall|i: int|
                0 <= i < shards.len() && (#[trigger] shards[i]) is Some implies shards[i]->0.len()
                > 0 by {
                if i < last {
                    assert(front[i] == shards[i]);
                }
            }
            assert forall|i: int, j: int|
                0 <= i < j < shards.len() && (#[trigger] shards[i]) is Some && (
                #[trigger] shards[j]) is Some implies shards[i]->0.len()
                == shards[j]->0.len() by {
                assert(front[i] == shards[i]);
                if j < last {
                    assert(front[j] == shards[j]);
                }
            }
        } else if size_fault(front) is Some {
            if forall|i: int|
                0 <= i < shards.len() && (#[trigger] shards[i]) is Some ==> shards[i]->0.len() > 0 {
                let (i, j) = choose|i: int, j: int|
                    0 <= i < j < front.len() && (#[trigger] front[i]) is Some && (
                    #[trigger] front[j]) is Some && front[i]->0.len() != front[j]->0.len();
                assert forall|x: int|
                    0 <= x < front.len() && (#[trigger] front[x]) is Some implies front[x]->0.len()
                    > 0 by {
                    assert(shards[x] == front[x]);
                }
                assert(shards[i] == front[i] && shards[j] == front[j]);
            }
        } else {
            let b = shards[last]->0;
            if b.len() > 0 {
                let i = choose|i: int|
                    0 <= i < front.len() && (#[trigger] front[i]) is Some && front[i]->0.len()
                        != b.len();
                assert(shards[i] == front[i]);
            }
        }
    }
}

/// The model of shards holds each shard that is there, and says which are missing.
pub proof fn the_model_shows_the_shards(shards: Seq<Option<Vec<u8>>>, i: int)
    requires
        0 <= i < shards.len(),
    ensures
        shard_views(shards).len() == shards.len(),
        shard_views(shards)[i] is Some <==> shards[i] is Some,
        shards[i] matches Some(shard) ==> shard_views(shards)[i] == Some(shard@),
{
}

/// The chunks behind the data chunks of an encoding are the parity of the data chunks, and
/// there is nothing else in it.
pub proof fn parity_follows_the_data(codec: ErasureCodec, data: Seq<u8>)
    requires
        codec.wf(),
    ensures
        ({
            let k = codec.data_shards as nat;
            let m = codec.parity_shards as nat;
            let cut = codec.encoding(data).take(k as int);
            &&& codec.encoding(data).len() >= k
            &&& cut == chunks_of(data, k)
            &&& codec.encoding(data).skip(k as int) == rs_parity(k, m, cut)
        }),
{
    let k = codec.data_shards as nat;
    assert(codec.encoding(data).take(k as int) =~= chunks_of(data, k));
    assert(codec.encoding(data).skip(k as int) =~= rs_parity(
        k,
        codec.parity_shards as nat,
        chunks_of(data, k),
    ));
}

/// Shards are part of a code word exactly where there are as many, and each that is there is
/// the one of the word.
pub proof fn parts_agree_with_the_word(shards: Seq<Option<Seq<u8>>>, word: Seq<Seq<u8>>)
    ensures
        part_of(shards, word) <==> shards.len() == word.len() && forall|i: int|
            0 <= i < shards.len() ==> (#[trigger] shards[i]) is None || shards[i] == Some(word[i]),
{
}

} // verus!
