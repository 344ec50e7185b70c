//! Shard codec: pure Reed-Solomon encode/reconstruct over byte chunks.
//!
//! A chunk of bytes is spread over `n` data shards of one common size; the
//! Reed-Solomon code over GF(256) adds `m` parity shards of the same size.
//! Any `n` of the `n + m` shards determine the whole shard set exactly, so up
//! to `m` missing shards can be rebuilt.

use vstd::prelude::*;
use crate::GuardError;

verus! {

/// GF(256) admits at most 256 shards per codeword.
pub const MAX_TOTAL_SHARDS: usize = 256;

/// The common size of the shards that a chunk of `len` bytes is spread over,
/// when split into `n` data shards: the least size whose `n` shards hold
/// `len` bytes, and at least one byte, so that a zero-length chunk still has
/// encodable shards.
pub open spec fn shard_size_of(len: int, n: int) -> int {
    if len <= 0 {
        1
    } else {
        (len - 1) / n + 1
    }
}

/// The `n` data shards of a chunk: byte `i * size + j` of the chunk lands at
/// position `j` of shard `i`; slots past the end of the chunk hold zero
/// padding.
pub open spec fn data_shards_of(chunk: Seq<u8>, n: int) -> Seq<Seq<u8>> {
    let size = shard_size_of(chunk.len() as int, n);
    Seq::new(
        n as nat,
        |i: int|
            Seq::new(
                size as nat,
                |j: int|
                    if i * size + j < chunk.len() {
                        chunk[i * size + j]
                    } else {
                        0u8
                    },
            ),
    )
}

/// The parity shards that `reed_solomon_erasure`'s encoder derives from a
/// set of data shards; a fixed function of the data shards and the parity
/// count alone.
pub uninterp spec fn rs_parity(data: Seq<Seq<u8>>, parity_count: int) -> Seq<Seq<u8>>;

/// A full codeword: the data shards followed by their parity shards.
pub open spec fn codeword(data: Seq<Seq<u8>>, parity_count: int) -> Seq<Seq<u8>> {
    data + rs_parity(data, parity_count)
}

/// The codeword that protects one chunk of bytes.
pub open spec fn codeword_of_chunk(chunk: Seq<u8>, n: int, m: int) -> Seq<Seq<u8>> {
    codeword(data_shards_of(chunk, n), m)
}

/// All shards have the common size `size`.
pub open spec fn uniform(shards: Seq<Seq<u8>>, size: int) -> bool {
    forall|i: int| 0 <= i < shards.len() ==> (#[trigger] shards[i]).len() == size
}

/// The mathematical view of a shard set read back from storage: `None` where
/// a shard is missing.
pub open spec fn obs_view(v: Seq<Option<Vec<u8>>>) -> Seq<Option<Seq<u8>>> {
    Seq::new(
        v.len(),
        |i: int|
            match v[i] {
                Some(s) => Some(s@),
                None => None,
            },
    )
}

/// The view of a fully present shard set.
pub open spec fn shards_view(v: Seq<Vec<u8>>) -> Seq<Seq<u8>> {
    Seq::new(v.len(), |i: int| v[i]@)
}

/// Every present slot of `obs` holds the shard that the codeword `cw` puts
/// there.
pub open spec fn agrees(obs: Seq<Option<Seq<u8>>>, cw: Seq<Seq<u8>>) -> bool {
    &&& obs.len() == cw.len()
    &&& forall|i: int| 0 <= i < obs.len() && obs[i] is Some ==> obs[i] == Some(#[trigger] cw[i])
}

/// The indices at which a shard is present.
pub open spec fn present_set(obs: Seq<Option<Seq<u8>>>) -> Set<int> {
    Set::new(|i: int| 0 <= i < obs.len() && obs[i] is Some)
}

/// How many shards are present.
pub open spec fn present_count(obs: Seq<Option<Seq<u8>>>) -> nat {
    present_set(obs).len()
}

/// Every present shard has the given size.
pub open spec fn present_uniform(obs: Seq<Option<Seq<u8>>>, size: int) -> bool {
    forall|i: int|
        0 <= i < obs.len() && obs[i] is Some ==> (#[trigger] obs[i])->0.len() == size
}

/// The size of the first present shard, or 1 when none is present.
pub open spec fn first_present_size(obs: Seq<Option<Seq<u8>>>) -> int
    decreases obs.len(),
{
    if obs.len() == 0 {
        1
    } else if obs[0] is Some {
        obs[0]->0.len() as int
    } else {
        first_present_size(obs.drop_first())
    }
}

/// A codeword with every shard present.
pub open spec fn wrap_all(cw: Seq<Seq<u8>>) -> Seq<Option<Seq<u8>>> {
    Seq::new(cw.len(), |i: int| Some(cw[i]))
}

/// `obs` with the shards at the indices in `gone` erased.
pub open spec fn erase(obs: Seq<Option<Seq<u8>>>, gone: Set<int>) -> Seq<Option<Seq<u8>>> {
    Seq::new(
        obs.len(),
        |i: int|
            if gone.contains(i) {
                None
            } else {
                obs[i]
            },
    )
}

/// Holds the `reed_solomon_erasure` codec handle, whose generic type
/// declaration Verus refuses; opaque to the verifier.
#[verifier::external_body]
struct RsHandle {
    rs: reed_solomon_erasure::galois_8::ReedSolomon,
}

/// A Reed-Solomon codec over GF(256) for a fixed shard configuration.
pub struct RSEncoder {
    handle: RsHandle,
    data_shards: usize,
    parity_shards: usize,
}

impl RSEncoder {
    /// A shard configuration the codec accepts.
    pub open spec fn valid_config(n: usize, m: usize) -> bool {
        &&& 1 <= n
        &&& 1 <= m
        &&& n + m <= MAX_TOTAL_SHARDS
    }

    /// The number of data shards `n`.
    pub closed spec fn n(&self) -> usize {
        self.data_shards
    }

    /// The number of parity shards `m`.
    pub closed spec fn m(&self) -> usize {
        self.parity_shards
    }

    /// The codec was built from an accepted configuration.
    pub open spec fn wf(&self) -> bool {
        Self::valid_config(self.n(), self.m())
    }

    pub open spec fn total_shards(&self) -> int {
        self.n() + self.m()
    }

    /// The number of data shards `n`.
    pub fn data_shard_count(&self) -> (r: usize)
        ensures
            r == self.n(),
    {
        self.data_shards
    }

    /// The number of parity shards `m`.
    pub fn parity_shard_count(&self) -> (r: usize)
        ensures
            r == self.m(),
    {
        self.parity_shards
    }

    /// Creates a new encoder with the given shard configuration.
    ///
    /// Relies on `reed_solomon_erasure::ReedSolomon::new`: it succeeds
    /// exactly when `1 <= data_shards`, `1 <= parity_shards` and
    /// `data_shards + parity_shards <= 256` (the order of GF(256)).
    #[verifier::external_body]
    pub fn new(data_shards: usize, parity_shards: usize) -> (r: Result<RSEncoder, GuardError>)
        requires
            data_shards + parity_shards <= usize::MAX,
        ensures
            r is Ok <==> Self::valid_config(data_shards, parity_shards),
            r matches Ok(enc) ==> enc.n() == data_shards && enc.m() == parity_shards,
            r matches Err(e) ==> e == GuardError::Config,
    {
        match reed_solomon_erasure::galois_8::ReedSolomon::new(data_shards, parity_shards) {
            Ok(rs) => Ok(RSEncoder { handle: RsHandle { rs }, data_shards, parity_shards }),
            Err(_) => Err(GuardError::Config),
        }
    }

    /// Overwrites the parity slots of `shards` with the parity of its data
    /// slots.
    ///
    /// Relies on `reed_solomon_erasure::ReedSolomon::encode`: given exactly
    /// `n + m` shard buffers of one common positive size, it always succeeds,
    /// leaves the first `n` buffers untouched, and overwrites the last `m`
    /// in place (sizes kept) with parity that is a function of the data
    /// shards and `m` alone, named `rs_parity` here.
    #[verifier::external_body]
    fn rs_encode(&self, shards: &mut Vec<Vec<u8>>)
        requires
            self.wf(),
            old(shards)@.len() == self.total_shards(),
            uniform(shards_view(old(shards)@), old(shards)@[0]@.len() as int),
            old(shards)@[0]@.len() >= 1,
        ensures
            shards_view(final(shards)@) == shards_view(old(shards)@).take(self.n() as int)
                + rs_parity(
                shards_view(old(shards)@).take(self.n() as int),
                self.m() as int,
            ),
            uniform(shards_view(final(shards)@), old(shards)@[0]@.len() as int),
            final(shards)@.len() == old(shards)@.len(),
    {
        self.handle.rs.encode(&mut **shards).expect("shard shapes were checked by the caller");
    }

    /// Rebuilds the missing shards of `shards` in place.
    ///
    /// Relies on `reed_solomon_erasure::ReedSolomon::reconstruct`: given
    /// exactly `n + m` slots whose present shards share one positive size,
    /// with at least `n` of them present, it fills every missing slot and
    /// leaves the present ones untouched; and since any `n` shards of a
    /// codeword determine it, whenever the present shards all lie on the
    /// codeword of some uniform data-shard set, the filled slots complete
    /// exactly that codeword.
    #[verifier::external_body]
    fn rs_reconstruct(&self, shards: &mut Vec<Option<Vec<u8>>>, size: usize)
        requires
            self.wf(),
            old(shards)@.len() == self.total_shards(),
            present_count(obs_view(old(shards)@)) >= self.n(),
            1 <= size,
            forall|i: int|
                0 <= i < old(shards)@.len() && old(shards)@[i] is Some ==> (
                #[trigger] obs_view(old(shards)@)[i])->0.len() == size,
        ensures
            final(shards)@.len() == old(shards)@.len(),
            forall|i: int|
                0 <= i < final(shards)@.len() ==> #[trigger] obs_view(final(shards)@)[i] is Some,
            forall|i: int|
                0 <= i < final(shards)@.len() && old(shards)@[i] is Some ==> #[trigger] obs_view(
                    final(shards)@,
                )[i] == obs_view(old(shards)@)[i],
            forall|i: int|
                0 <= i < final(shards)@.len() ==> (#[trigger] obs_view(final(shards)@)[i])->0.len()
                    == size,
            forall|orig: Seq<Seq<u8>>|
                orig.len() == self.n() && uniform(orig, size as int) && #[trigger] agrees(
                    obs_view(old(shards)@),
                    codeword(orig, self.m() as int),
                ) ==> obs_view(final(shards)@) == wrap_all(codeword(orig, self.m() as int)),
    {
        self.handle.rs.reconstruct(&mut **shards).expect("shard shapes were checked by the caller");
    }
}


impl RSEncoder {
    /// Spreads a chunk over `n + m` equal-size buffers: the first `n` hold
    /// the chunk's bytes with zero padding at the tail, the last `m` are
    /// zeroed slots for the parity to come.
    fn make_shards(&self, data: &[u8]) -> (r: Vec<Vec<u8>>)
        requires
            self.wf(),
            data@.len() + MAX_TOTAL_SHARDS <= usize::MAX,
        ensures
            r@.len() == self.total_shards(),
            shards_view(r@).take(self.n() as int) == data_shards_of(data@, self.n() as int),
            uniform(shards_view(r@), shard_size_of(data@.len() as int, self.n() as int)),
    {
        let n = self.data_shards;
        let total = self.data_shards + self.parity_shards;
        let len = data.len();
        let size: usize = if len == 0 {
            1
        } else {
            (len - 1) / n + 1
        };
        proof {
            if len > 0 {
                vstd::arithmetic::div_mod::lemma_fundamental_div_mod(len as int - 1, n as int);
                assert(n * size <= len + n) by (nonlinear_arith)
                    requires
                        n >= 1,
                        len >= 1,
                        size == (len - 1) as int / n as int + 1,
                        (len - 1) as int == n as int * ((len - 1) as int / n as int) + (len
                            - 1) as int % n as int,
                        0 <= (len - 1) as int % n as int,
                        ((len - 1) as int % n as int) < (n as int),
                ;
            } else {
                assert(n * size == n as int) by (nonlinear_arith)
                    requires
                        size == 1int,
                ;
            }
        }
        let mut shards: Vec<Vec<u8>> = Vec::new();
        let mut i: usize = 0;
        while i < total
            invariant
                self.wf(),
                n == self.n(),
                total == self.total_shards(),
                len == data@.len(),
                len + MAX_TOTAL_SHARDS <= usize::MAX,
                size == shard_size_of(len as int, n as int),
                n * size <= len + n,
                i <= total,
                shards@.len() == i,
                forall|k: int|
                    0 <= k < i ==> (#[trigger] shards@[k])@.len() == size,
                forall|k: int|
                    0 <= k < i && k < n ==> shards@[k]@ == data_shards_of(data@, n as int)[k],
            decreases total - i,
        {
            let mut shard: Vec<u8> = Vec::new();
            let mut j: usize = 0;
            while j < size
                invariant
                    n >= 1,
                    n <= MAX_TOTAL_SHARDS,
                    i < total,
                    total <= MAX_TOTAL_SHARDS,
                    len == data@.len(),
                    len + MAX_TOTAL_SHARDS <= usize::MAX,
                    n * size <= len + n,
                    j <= size,
                    shard@.len() == j,
                    forall|l: int|
                        0 <= l < j ==> shard@[l] == (if i < n && i * size + l < len {
                            data@[i * size + l]
                        } else {
                            0u8
                        }),
                decreases size - j,
            {
                if i < n {
                    proof {
                        assert(i * size + j < n * size) by (nonlinear_arith)
                            requires
                                0 <= i < n,
                                0 <= j < size,
                        ;
                    }
                    let pos = i * size + j;
                    if pos < len {
                        shard.push(data[pos]);
                    } else {
                        shard.push(0u8);
                    }
                } else {
                    shard.push(0u8);
                }
                j += 1;
            }
            if i < n {
                proof {
                    assert(shard@ =~= data_shards_of(data@, n as int)[i as int]);
                }
            }
            shards.push(shard);
            i += 1;
        }
        proof {
            assert(shards_view(shards@).take(n as int) =~= data_shards_of(data@, n as int));
        }
        shards
    }

    /// Encodes a chunk into its full shard set: `n` data shards followed by
    /// `m` parity shards, all of size `shard_size_of(data.len(), n)`.
    pub fn encode(&self, data: &[u8]) -> (r: Result<Vec<Vec<u8>>, GuardError>)
        requires
            self.wf(),
            data@.len() + MAX_TOTAL_SHARDS <= usize::MAX,
        ensures
            r is Ok,
            r matches Ok(shards) ==> {
                &&& shards_view(shards@) == codeword_of_chunk(data@, self.n() as int, self.m() as int)
                &&& shards@.len() == self.total_shards()
                &&& uniform(
                    codeword_of_chunk(data@, self.n() as int, self.m() as int),
                    shard_size_of(data@.len() as int, self.n() as int),
                )
            },
    {
        let mut shards = self.make_shards(data);
        proof {
            assert(shards_view(shards@)[0].len() == shard_size_of(
                data@.len() as int,
                self.n() as int,
            ));
        }
        self.rs_encode(&mut shards);
        proof {
            assert(shards_view(shards@) =~= codeword_of_chunk(
                data@,
                self.n() as int,
                self.m() as int,
            ));
        }
        Ok(shards)
    }
}


/// The present-index set of a shard observation is finite and no larger than
/// the slot count.
pub proof fn lemma_present_finite(obs: Seq<Option<Seq<u8>>>)
    ensures
        present_set(obs).finite(),
        present_set(obs).len() <= obs.len(),
{
    vstd::set_lib::lemma_int_range(0, obs.len() as int);
    assert(present_set(obs).subset_of(vstd::set_lib::set_int_range(0, obs.len() as int)));
    vstd::set_lib::lemma_len_subset(
        present_set(obs),
        vstd::set_lib::set_int_range(0, obs.len() as int),
    );
}

/// The first present shard pins `first_present_size`.
proof fn lemma_first_present_size(obs: Seq<Option<Seq<u8>>>, i: int, s: int)
    requires
        0 <= i < obs.len(),
        forall|k: int| 0 <= k < i ==> obs[k] is None,
        obs[i] is Some,
        obs[i]->0.len() == s,
    ensures
        first_present_size(obs) == s,
    decreases i,
{
    if i > 0 {
        lemma_first_present_size(obs.drop_first(), i - 1, s);
    }
}

/// How the present count grows from one slot to the next.
proof fn lemma_present_take_step(obs: Seq<Option<Seq<u8>>>, i: int)
    requires
        0 <= i < obs.len(),
    ensures
        obs[i] is Some ==> present_count(obs.take(i + 1)) == present_count(obs.take(i)) + 1,
        obs[i] is None ==> present_count(obs.take(i + 1)) == present_count(obs.take(i)),
{
    lemma_present_finite(obs.take(i));
    if obs[i] is Some {
        assert(present_set(obs.take(i + 1)) =~= present_set(obs.take(i)).insert(i));
        assert(!present_set(obs.take(i)).contains(i));
    } else {
        assert(present_set(obs.take(i + 1)) =~= present_set(obs.take(i)));
    }
}

impl RSEncoder {
    /// Rebuilds every missing shard of a chunk's shard set in place.
    ///
    /// Succeeds exactly when the set has one slot per shard of the codec's
    /// configuration, the present shards share one positive size, and at
    /// least `n` of them are present; the present slots are never touched,
    /// and when the present shards all lie on the codeword of some data-shard
    /// set, the missing slots are filled with exactly that codeword's shards.
    /// On failure nothing is touched.
    pub fn reconstruct(&self, shards: &mut Vec<Option<Vec<u8>>>) -> (r: Result<(), GuardError>)
        requires
            self.wf(),
        ensures
            r is Ok <==> {
                &&& old(shards)@.len() == self.total_shards()
                &&& (exists|size: int|
                    1 <= size && #[trigger] present_uniform(obs_view(old(shards)@), size))
                &&& present_count(obs_view(old(shards)@)) >= self.n()
            },
            r is Err ==> *final(shards) == *old(shards),
            r matches Err(e) ==> (e == GuardError::InsufficientShards <==> {
                &&& old(shards)@.len() == self.total_shards()
                &&& (exists|size: int|
                    1 <= size && #[trigger] present_uniform(obs_view(old(shards)@), size))
            }),
            r matches Err(e) ==> (e == GuardError::InsufficientShards || e
                == GuardError::ShardSizeMismatch),
            r is Ok ==> {
                &&& final(shards)@.len() == old(shards)@.len()
                &&& (forall|i: int|
                    0 <= i < final(shards)@.len() ==> #[trigger] obs_view(final(shards)@)[i]
                        is Some)
                &&& (forall|i: int|
                    0 <= i < final(shards)@.len() && old(shards)@[i] is Some
                        ==> #[trigger] obs_view(final(shards)@)[i] == obs_view(old(shards)@)[i])
                &&& 1 <= first_present_size(obs_view(old(shards)@))
                &&& (forall|i: int|
                    0 <= i < final(shards)@.len() ==> (#[trigger] obs_view(
                        final(shards)@,
                    )[i])->0.len() == first_present_size(obs_view(old(shards)@)))
                &&& (forall|orig: Seq<Seq<u8>>|
                    orig.len() == self.n() && uniform(
                        orig,
                        first_present_size(obs_view(old(shards)@)),
                    ) && #[trigger] agrees(
                        obs_view(old(shards)@),
                        codeword(orig, self.m() as int),
                    ) ==> obs_view(final(shards)@) == wrap_all(codeword(orig, self.m() as int)))
            },
    {
        let total = self.data_shards + self.parity_shards;
        if shards.len() != total {
            return Err(GuardError::ShardSizeMismatch);
        }
        let ghost obs = obs_view(shards@);
        proof {
            assert(present_set(obs.take(0)) =~= Set::<int>::empty());
        }
        let mut count: usize = 0;
        let mut size: usize = 0;
        let mut have_size = false;
        let mut i: usize = 0;
        while i < total
            invariant
                shards@.len() == total,
                obs == obs_view(shards@),
                i <= total,
                count == present_count(obs.take(i as int)),
                count <= i,
                !have_size ==> count == 0,
                have_size ==> 1 <= size,
                have_size ==> present_uniform(obs.take(i as int), size as int),
                have_size ==> size == first_present_size(obs),
                have_size ==> count >= 1,
                have_size ==> (exists|k: int|
                    0 <= k < i && #[trigger] obs[k] is Some && obs[k]->0.len() == size),
                !have_size ==> forall|k: int| 0 <= k < i ==> obs[k] is None,
            decreases total - i,
        {
            proof {
                lemma_present_take_step(obs, i as int);
            }
            match &shards[i] {
                Some(sh) => {
                    let l = sh.len();
                    if l == 0 {
                        return Err(GuardError::ShardSizeMismatch);
                    }
                    if have_size {
                        if l != size {
                            return Err(GuardError::ShardSizeMismatch);
                        }
                    } else {
                        size = l;
                        have_size = true;
                        proof {
                            assert(forall|k: int| 0 <= k < i ==> obs[k] is None);
                            assert(obs[i as int] is Some && obs[i as int]->0.len() == size);
                            lemma_first_present_size(obs, i as int, size as int);
                        }
                    }
                    count = count + 1;
                },
                None => {},
            }
            i += 1;
        }
        proof {
            assert(obs.take(total as int) =~= obs);
        }
        if count < self.data_shards {
            proof {
                if !have_size {
                    assert(present_uniform(obs, 1));
                }
            }
            return Err(GuardError::InsufficientShards);
        }
        proof {
            assert(count >= 1);
            assert(have_size);
        }
        self.rs_reconstruct(shards, size);
        proof {
            assert(exists|s: int| 1 <= s && #[trigger] present_uniform(obs, s)) by {
                assert(present_uniform(obs, size as int));
            };
        }
        Ok(())
    }
}


/// A witness that some shard is present when the present count is positive.
proof fn lemma_present_nonempty(obs: Seq<Option<Seq<u8>>>)
    requires
        present_count(obs) >= 1,
    ensures
        exists|k: int| 0 <= k < obs.len() && obs[k] is Some,
{
    lemma_present_finite(obs);
    if forall|k: int| 0 <= k < obs.len() ==> obs[k] !is Some {
        assert(present_set(obs) =~= Set::<int>::empty());
    }
}

/// With a present shard as witness, every uniform present size is the first
/// present size.
proof fn lemma_fps_witness(obs: Seq<Option<Seq<u8>>>, k: int, s: int)
    requires
        0 <= k < obs.len(),
        obs[k] is Some,
        present_uniform(obs, s),
    ensures
        first_present_size(obs) == s,
    decreases k,
{
    if obs[0] is Some {
    } else {
        assert(k > 0);
        assert(forall|i: int|
            0 <= i < obs.drop_first().len() && obs.drop_first()[i] is Some ==> (
            #[trigger] obs.drop_first()[i])->0.len() == s);
        lemma_fps_witness(obs.drop_first(), k - 1, s);
    }
}

/// `n` shards of the common size hold the whole chunk, with less than one
/// shard of padding.
pub proof fn lemma_shard_capacity(len: int, n: int)
    requires
        0 <= len,
        1 <= n,
    ensures
        1 <= shard_size_of(len, n),
        len <= n * shard_size_of(len, n),
        n * shard_size_of(len, n) <= len + n,
{
    if len > 0 {
        vstd::arithmetic::div_mod::lemma_fundamental_div_mod(len - 1, n);
        assert(len <= n * shard_size_of(len, n) && n * shard_size_of(len, n) <= len + n)
            by (nonlinear_arith)
            requires
                1 <= n,
                1 <= len,
                shard_size_of(len, n) == (len - 1) / n + 1,
                len - 1 == n * ((len - 1) / n) + (len - 1) % n,
                0 <= (len - 1) % n,
                ((len - 1) % n) < n,
        ;
    } else {
        assert(n * 1 == n) by (nonlinear_arith);
    }
}

/// Two disjoint finite sets contribute their lengths in full to their union.
pub proof fn lemma_len_disjoint_union<A>(s1: Set<A>, s2: Set<A>)
    requires
        s1.finite(),
        s2.finite(),
        s1.disjoint(s2),
    ensures
        s1.union(s2).len() == s1.len() + s2.len(),
    decreases s1.len(),
{
    if s1.is_empty() {
        assert(s1.union(s2) =~= s2);
    } else {
        let a = s1.choose();
        assert(s1.union(s2).remove(a) =~= s1.remove(a).union(s2));
        lemma_len_disjoint_union::<A>(s1.remove(a), s2);
    }
}

/// Erasure tolerance, the recoverable side: erasing at most `m` of the
/// `n + m` shards of a chunk's codeword leaves an observation that still
/// agrees with that codeword, has at least `n` shards present, and keeps the
/// common shard size — exactly the inputs on which `recover_chunk` promises
/// to return the chunk. With nothing erased this is the round trip.
pub proof fn lemma_erasure_tolerance(chunk: Seq<u8>, n: int, m: int, size: int, gone: Set<int>)
    requires
        1 <= n,
        1 <= m,
        codeword_of_chunk(chunk, n, m).len() == n + m,
        uniform(codeword_of_chunk(chunk, n, m), size),
        gone.subset_of(vstd::set_lib::set_int_range(0, n + m)),
        gone.finite(),
        gone.len() <= m,
    ensures
        ({
            let obs = erase(wrap_all(codeword_of_chunk(chunk, n, m)), gone);
            &&& agrees(obs, codeword_of_chunk(chunk, n, m))
            &&& present_count(obs) >= n
            &&& present_uniform(obs, size)
        }),
{
    let cw = codeword_of_chunk(chunk, n, m);
    let obs = erase(wrap_all(cw), gone);
    let range = vstd::set_lib::set_int_range(0, n + m);
    vstd::set_lib::lemma_int_range(0, n + m);
    assert(present_set(obs) =~= range.difference(gone));
    assert(range =~= range.difference(gone).union(gone));
    lemma_present_finite(obs);
    vstd::set_lib::lemma_len_union(range.difference(gone), gone);
}

/// Erasure tolerance, the failing side: erasing more than `m` of the `n + m`
/// shards leaves fewer than `n` present, on which `recover_chunk` promises
/// `InsufficientShards`.
pub proof fn lemma_too_many_erasures(chunk: Seq<u8>, n: int, m: int, size: int, gone: Set<int>)
    requires
        1 <= n,
        1 <= m,
        codeword_of_chunk(chunk, n, m).len() == n + m,
        uniform(codeword_of_chunk(chunk, n, m), size),
        gone.subset_of(vstd::set_lib::set_int_range(0, n + m)),
        gone.finite(),
        gone.len() > m,
    ensures
        ({
            let obs = erase(wrap_all(codeword_of_chunk(chunk, n, m)), gone);
            &&& present_count(obs) < n
            &&& present_uniform(obs, size)
        }),
{
    let cw = codeword_of_chunk(chunk, n, m);
    let obs = erase(wrap_all(cw), gone);
    let range = vstd::set_lib::set_int_range(0, n + m);
    vstd::set_lib::lemma_int_range(0, n + m);
    assert(present_set(obs) =~= range.difference(gone));
    assert(range =~= range.difference(gone).union(gone));
    lemma_present_finite(obs);
    vstd::set_lib::lemma_len_subset(range.difference(gone), range);
    lemma_len_disjoint_union(range.difference(gone), gone);
}

impl RSEncoder {
    /// Concatenates the data shards of a fully present shard set and trims
    /// the zero padding down to the chunk's original length.
    fn assemble_chunk(&self, shards: &Vec<Option<Vec<u8>>>, size: usize, original_length: usize) -> (r:
        Vec<u8>)
        requires
            self.wf(),
            shards@.len() == self.total_shards(),
            1 <= size,
            forall|i: int| 0 <= i < shards@.len() ==> #[trigger] obs_view(shards@)[i] is Some,
            present_uniform(obs_view(shards@), size as int),
            original_length <= self.n() * size,
        ensures
            r@.len() == original_length,
            forall|p: int|
                0 <= p < original_length ==> #[trigger] r@[p] == obs_view(shards@)[p / (
                size as int)]->0[p % (size as int)],
    {
        let n = self.data_shards;
        let mut out: Vec<u8> = Vec::new();
        while out.len() < original_length
            invariant
                self.wf(),
                n == self.n(),
                shards@.len() == self.total_shards(),
                1 <= size,
                forall|i: int| 0 <= i < shards@.len() ==> #[trigger] obs_view(shards@)[i] is Some,
                present_uniform(obs_view(shards@), size as int),
                original_length <= n * size,
                out@.len() <= original_length,
                forall|p: int|
                    0 <= p < out@.len() ==> #[trigger] out@[p] == obs_view(shards@)[p / (
                    size as int)]->0[p % (size as int)],
            decreases original_length - out.len(),
        {
            let p = out.len();
            proof {
                assert((p as int) / (size as int) < n as int) by (nonlinear_arith)
                    requires
                        0 <= p,
                        (p as int) < n as int * size as int,
                        1 <= size,
                        1 <= n,
                ;
                vstd::arithmetic::div_mod::lemma_fundamental_div_mod(p as int, size as int);
                vstd::arithmetic::div_mod::lemma_mod_division_less_than_divisor(
                    p as int,
                    size as int,
                );
            }
            let i = p / size;
            let j = p % size;
            let b: u8;
            match &shards[i] {
                Some(sh) => {
                    proof {
                        assert(obs_view(shards@)[i as int] == Some(sh@));
                        assert(sh@.len() == size);
                    }
                    b = sh[j];
                },
                None => {
                    proof {
                        assert(obs_view(shards@)[i as int] is Some);
                    }
                    b = 0u8;
                },
            }
            out.push(b);
        }
        out
    }

    /// Recovers a chunk's original bytes from its shard set, rebuilding
    /// missing shards first.
    ///
    /// Succeeds exactly when the set has one slot per shard, the present
    /// shards share one positive size whose `n` data shards can hold
    /// `original_length` bytes, and at least `n` shards are present. Whenever
    /// the present shards all lie on the codeword that `encode` produces for
    /// a chunk of `original_length` bytes, the result is exactly that chunk:
    /// with `encode`'s contract this is the round trip, for every chunk and
    /// every loss of up to `m` shards.
    pub fn recover_chunk(&self, shards: &mut Vec<Option<Vec<u8>>>, original_length: usize) -> (r:
        Result<Vec<u8>, GuardError>)
        requires
            self.wf(),
        ensures
            r is Ok <==> {
                &&& old(shards)@.len() == self.total_shards()
                &&& (exists|size: int|
                    {
                        &&& 1 <= size
                        &&& #[trigger] present_uniform(obs_view(old(shards)@), size)
                        &&& original_length <= self.n() * size
                    })
                &&& present_count(obs_view(old(shards)@)) >= self.n()
            },
            r matches Err(e) ==> (e == GuardError::InsufficientShards <==> {
                &&& old(shards)@.len() == self.total_shards()
                &&& (exists|size: int|
                    1 <= size && #[trigger] present_uniform(obs_view(old(shards)@), size))
                &&& present_count(obs_view(old(shards)@)) < self.n()
            }),
            r matches Err(e) ==> (e == GuardError::InsufficientShards || e
                == GuardError::ShardSizeMismatch),
            r is Ok ==> final(shards)@.len() == old(shards)@.len() && (forall|i: int|
                0 <= i < final(shards)@.len() ==> #[trigger] obs_view(final(shards)@)[i] is Some),
            forall|chunk: Seq<u8>|
                chunk.len() == original_length && old(shards)@.len() == self.total_shards()
                    && uniform(
                    codeword_of_chunk(chunk, self.n() as int, self.m() as int),
                    shard_size_of(original_length as int, self.n() as int),
                ) && #[trigger] agrees(
                    obs_view(old(shards)@),
                    codeword_of_chunk(chunk, self.n() as int, self.m() as int),
                ) && present_count(obs_view(old(shards)@)) >= self.n() ==> (r matches Ok(out)
                    && out@ == chunk && obs_view(final(shards)@) == wrap_all(
                    codeword_of_chunk(chunk, self.n() as int, self.m() as int),
                )),
    {
        let ghost obs = obs_view(shards@);
        match self.reconstruct(shards) {
            Err(e) => {
                proof {
                    if present_count(obs) >= 1 && (exists|size: int|
                        1 <= size && #[trigger] present_uniform(obs, size)) {
                        let s = choose|size: int|
                            1 <= size && #[trigger] present_uniform(obs, size);
                        lemma_present_nonempty(obs);
                        let k = choose|k: int| 0 <= k < obs.len() && obs[k] is Some;
                        lemma_fps_witness(obs, k, s);
                    }
                    assert forall|chunk: Seq<u8>|
                        chunk.len() == original_length && obs.len() == self.total_shards()
                            && uniform(
                            codeword_of_chunk(chunk, self.n() as int, self.m() as int),
                            shard_size_of(original_length as int, self.n() as int),
                        ) && #[trigger] agrees(
                            obs,
                            codeword_of_chunk(chunk, self.n() as int, self.m() as int),
                        ) && present_count(obs) >= self.n() implies false by {
                        let cw = codeword_of_chunk(chunk, self.n() as int, self.m() as int);
                        let s0 = shard_size_of(original_length as int, self.n() as int);
                        lemma_shard_capacity(original_length as int, self.n() as int);
                        assert(present_uniform(obs, s0)) by {
                            assert forall|i: int|
                                0 <= i < obs.len() && obs[i] is Some implies (
                            #[trigger] obs[i])->0.len() == s0 by {
                                assert(obs[i] == Some(cw[i]));
                                assert(cw[i].len() == s0);
                            };
                        };
                    };
                }
                return Err(e);
            },
            Ok(()) => {},
        }
        let ghost fps = first_present_size(obs);
        let size: usize;
        match &shards[0] {
            Some(sh) => {
                proof {
                    assert(obs_view(shards@)[0] == Some(sh@));
                    assert(sh@.len() == fps);
                }
                size = sh.len();
            },
            None => {
                proof {
                    assert(obs_view(shards@)[0] is Some);
                }
                size = 1;
            },
        }
        proof {
            assert(size as int == fps);
            lemma_present_nonempty(obs);
            let k = choose|k: int| 0 <= k < obs.len() && obs[k] is Some;
            assert(forall|s: int| 1 <= s && #[trigger] present_uniform(obs, s) ==> s == fps) by {
                assert forall|s: int|
                    1 <= s && #[trigger] present_uniform(obs, s) implies s == fps by {
                    lemma_fps_witness(obs, k, s);
                };
            };
            assert(present_uniform(obs, fps)) by {
                let s0 = choose|s: int| 1 <= s && #[trigger] present_uniform(obs, s);
                lemma_fps_witness(obs, k, s0);
            };
        }
        let n = self.data_shards;
        let needed: usize = if original_length == 0 {
            0
        } else {
            (original_length - 1) / size + 1
        };
        proof {
            if original_length > 0 {
                vstd::arithmetic::div_mod::lemma_fundamental_div_mod(
                    original_length as int - 1,
                    size as int,
                );
                assert((needed <= n) <==> (original_length as int <= n as int * size as int))
                    by (nonlinear_arith)
                    requires
                        1 <= size,
                        1 <= n,
                        1 <= original_length,
                        needed == (original_length - 1) as int / size as int + 1,
                        (original_length - 1) as int == size as int * ((original_length
                            - 1) as int / size as int) + (original_length - 1) as int % size as int,
                        0 <= (original_length - 1) as int % size as int,
                        ((original_length - 1) as int % size as int) < size as int,
                ;
            } else {
                assert(0 <= n as int * size as int) by (nonlinear_arith)
                    requires
                        0 <= n,
                        0 <= size,
                ;
            }
        }
        if needed > n {
            proof {
                assert forall|chunk: Seq<u8>|
                    chunk.len() == original_length && obs.len() == self.total_shards() && uniform(
                        codeword_of_chunk(chunk, self.n() as int, self.m() as int),
                        shard_size_of(original_length as int, self.n() as int),
                    ) && #[trigger] agrees(
                        obs,
                        codeword_of_chunk(chunk, self.n() as int, self.m() as int),
                    ) && present_count(obs) >= self.n() implies false by {
                    let cw = codeword_of_chunk(chunk, self.n() as int, self.m() as int);
                    let s0 = shard_size_of(original_length as int, self.n() as int);
                    lemma_shard_capacity(original_length as int, self.n() as int);
                    assert(present_uniform(obs, s0)) by {
                        assert forall|i: int|
                            0 <= i < obs.len() && obs[i] is Some implies (
                        #[trigger] obs[i])->0.len() == s0 by {
                            assert(obs[i] == Some(cw[i]));
                            assert(cw[i].len() == s0);
                        };
                    };
                    assert(s0 == fps);
                };
            }
            return Err(GuardError::ShardSizeMismatch);
        }
        let out = self.assemble_chunk(shards, size, original_length);
        proof {
            assert forall|chunk: Seq<u8>|
                chunk.len() == original_length && obs.len() == self.total_shards() && uniform(
                    codeword_of_chunk(chunk, self.n() as int, self.m() as int),
                    shard_size_of(original_length as int, self.n() as int),
                ) && #[trigger] agrees(
                    obs,
                    codeword_of_chunk(chunk, self.n() as int, self.m() as int),
                ) && present_count(obs) >= self.n() implies out@ == chunk && obs_view(shards@)
                == wrap_all(codeword_of_chunk(chunk, self.n() as int, self.m() as int)) by {
                let ni = self.n() as int;
                let mi = self.m() as int;
                let cw = codeword_of_chunk(chunk, ni, mi);
                let s0 = shard_size_of(original_length as int, ni);
                lemma_shard_capacity(original_length as int, ni);
                assert(present_uniform(obs, s0)) by {
                    assert forall|i: int|
                        0 <= i < obs.len() && obs[i] is Some implies (#[trigger] obs[i])->0.len()
                        == s0 by {
                        assert(obs[i] == Some(cw[i]));
                        assert(cw[i].len() == s0);
                    };
                };
                assert(s0 == fps);
                let dsv = data_shards_of(chunk, ni);
                assert(uniform(dsv, s0)) by {
                    assert(forall|i: int| 0 <= i < ni ==> dsv[i] == #[trigger] cw[i]);
                };
                assert(obs_view(shards@) == wrap_all(cw));
                assert(out@ =~= chunk) by {
                    assert forall|p: int| 0 <= p < original_length implies out@[p] == chunk[p] by {
                        vstd::arithmetic::div_mod::lemma_fundamental_div_mod(p, s0);
                        vstd::arithmetic::div_mod::lemma_mod_division_less_than_divisor(p, s0);
                        let i = p / s0;
                        let j = p % s0;
                        assert(0 <= i < ni) by (nonlinear_arith)
                            requires
                                0 <= p,
                                p < original_length,
                                original_length <= ni * s0,
                                1 <= s0,
                                1 <= ni,
                                i == p / s0,
                                p == s0 * i + j,
                                0 <= j < s0,
                        ;
                        assert(i * s0 + j == p) by (nonlinear_arith)
                            requires
                                p == s0 * i + j,
                        ;
                        assert(obs_view(shards@)[i] == Some(cw[i]));
                        assert(cw[i] == dsv[i]);
                        assert(dsv[i][j] == chunk[p]);
                    };
                };
            };
        }
        Ok(out)
    }
}

} // verus!
