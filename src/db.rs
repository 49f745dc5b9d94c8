use crate::codec::{
    code_to_index, fits_in_codes, code_value, encoded, index_to_code, is_code, lemma_code_value_range,
    lemma_decode_encoded, lemma_encoded_code_value, pow64, u64_range,
};
use crate::primes::{is_prime, is_prime_u64, lemma_prime_product_nonzero};
use vstd::prelude::*;

verus! {

/// A configuration or a persisted record that the store cannot start from.
#[derive(Debug, Clone, Copy, PartialEq, Eq, Structural)]
pub enum ConfigError {
    /// The generator is not below the prime.
    GeneratorTooBig,
    /// The generator is 0.
    GeneratorZero,
    /// The generator is 1.
    GeneratorOne,
    /// The seed state is not below the prime.
    StateTooBig,
    /// The modulus is not a prime number.
    NotPrime,
    /// The prime does not fit in codes of the given order.
    PrimeTooBig,
    /// The data file's size does not fit in 64 bits.
    DataTooLarge,
    /// The data file exists with a size other than `(prime - 1) * block_size`.
    DataSizeMismatch,
    /// The persisted state lies outside `[1, prime)`.
    InvalidState,
}

/// Why a payload was not stored.
#[derive(Debug, Clone, Copy, PartialEq, Eq, Structural)]
pub enum AddError {
    /// The payload is empty.
    PayloadEmpty,
    /// The payload is longer than a block.
    PayloadTooLarge,
}

/// What an accepted payload turns into: the block to write at `slot`, and the
/// code under which it can be found again.
pub struct PendingAdd {
    pub slot: u64,
    pub block: Vec<u8>,
    pub code: String,
}

/// The abstract state of a connector.
pub ghost struct ConnectorModel {
    pub prime: nat,
    pub generator: nat,
    pub state: nat,
    pub block_size: nat,
}

/// The generator's next position: one step of multiplication by `g` modulo `p`.
pub open spec fn next_state(p: int, g: int, s: int) -> int {
    (s * g) % p
}

/// A configuration the connector can run on.
pub open spec fn valid_model(m: ConnectorModel) -> bool {
    &&& is_prime(m.prime as int)
    &&& 1 < m.generator < m.prime
    &&& 1 <= m.state < m.prime
    &&& m.prime < u64_range()
}

/// The size in bytes of the data file: one block per non-zero residue.
pub open spec fn data_size_of(m: ConnectorModel) -> int {
    (m.prime - 1) * m.block_size
}

/// `payload` followed by zero bytes up to `size` bytes.
pub open spec fn padded(payload: Seq<u8>, size: nat) -> Seq<u8> {
    payload + Seq::new((size - payload.len()) as nat, |i: int| 0u8)
}

/// `b` without its trailing zero bytes.
pub open spec fn strip_zeros(b: Seq<u8>) -> Seq<u8>
    decreases b.len(),
{
    if b.len() > 0 && b.last() == 0 {
        strip_zeros(b.drop_last())
    } else {
        b
    }
}

/// The payload a block holds: none when its first byte is zero, else the
/// block without its zero padding.
pub open spec fn payload_of(block: Seq<u8>) -> Option<Seq<u8>> {
    if block.len() == 0 || block[0] == 0 {
        None
    } else {
        Some(strip_zeros(block))
    }
}

/// The slot that a code of `order` symbols names, if any: the index it
/// denotes must lie in `[1, prime)`, and the slot is that index less one.
pub open spec fn slot_of_code(m: ConnectorModel, order: nat, code: Seq<char>) -> Option<int> {
    if code.len() == order && is_code(code) && 1 <= code_value(code) < m.prime {
        Some(code_value(code) - 1)
    } else {
        None
    }
}

/// What a connector started with `data_len` bytes of data file and, when the
/// state file is not empty, the persisted `stored` state fails on, if anything.
pub open spec fn startup_error(
    m: ConnectorModel,
    order: nat,
    data_len: int,
    stored: Option<u64>,
) -> Option<ConfigError> {
    if m.prime >= pow64(order) {
        Some(ConfigError::PrimeTooBig)
    } else if data_size_of(m) >= u64_range() {
        Some(ConfigError::DataTooLarge)
    } else if data_len != 0 && data_len != data_size_of(m) {
        Some(ConfigError::DataSizeMismatch)
    } else if stored matches Some(s) && !(1 <= s < m.prime) {
        Some(ConfigError::InvalidState)
    } else {
        None
    }
}

/// The connector's state: the group parameters, the generator's position and
/// the block size. The backing files are handled by the caller.
#[derive(Debug)]
pub struct DBConnector {
    prime: u64,
    generator: u64,
    state: u64,
    block_size: usize,
}

impl View for DBConnector {
    type V = ConnectorModel;

    closed spec fn view(&self) -> ConnectorModel {
        ConnectorModel {
            prime: self.prime as nat,
            generator: self.generator as nat,
            state: self.state as nat,
            block_size: self.block_size as nat,
        }
    }
}

impl DBConnector {
    pub open spec fn wf(&self) -> bool {
        valid_model(self@)
    }

    /// Checks the group parameters and sets the starting state: `state`, or
    /// the generator itself when `state` is 0.
    pub fn new(prime: u64, generator: u64, state: u64, block_size: usize) -> (r: Result<
        DBConnector,
        ConfigError,
    >)
        ensures
            generator >= prime ==> r == Err::<DBConnector, ConfigError>(ConfigError::GeneratorTooBig),
            generator < prime && generator == 0 ==> r == Err::<DBConnector, ConfigError>(
                ConfigError::GeneratorZero,
            ),
            generator < prime && generator == 1 ==> r == Err::<DBConnector, ConfigError>(
                ConfigError::GeneratorOne,
            ),
            1 < generator < prime && state >= prime ==> r == Err::<DBConnector, ConfigError>(
                ConfigError::StateTooBig,
            ),
            1 < generator < prime && state < prime && !is_prime(prime as int) ==> r == Err::<
                DBConnector,
                ConfigError,
            >(ConfigError::NotPrime),
            1 < generator < prime && state < prime && is_prime(prime as int) ==> r is Ok,
            r matches Ok(c) ==> c.wf() && c@ == (ConnectorModel {
                prime: prime as nat,
                generator: generator as nat,
                state: if state == 0 {
                    generator as nat
                } else {
                    state as nat
                },
                block_size: block_size as nat,
            }),
    {
        if generator >= prime {
            return Err(ConfigError::GeneratorTooBig);
        }
        if generator == 0 {
            return Err(ConfigError::GeneratorZero);
        }
        if generator == 1 {
            return Err(ConfigError::GeneratorOne);
        }
        if state >= prime {
            return Err(ConfigError::StateTooBig);
        }
        if !is_prime_u64(prime) {
            return Err(ConfigError::NotPrime);
        }
        Ok(DBConnector {
            prime,
            generator,
            state: if state == 0 {
                generator
            } else {
                state
            },
            block_size,
        })
    }

    /// The generator's current position.
    pub fn get_state(&self) -> (r: u64)
        ensures
            r == self@.state,
    {
        self.state
    }

    /// The modulus.
    pub fn prime(&self) -> (r: u64)
        ensures
            r == self@.prime,
    {
        self.prime
    }

    /// The size of a block in bytes.
    pub fn block_size(&self) -> (r: usize)
        ensures
            r == self@.block_size,
    {
        self.block_size
    }

    /// Moves the generator one step and returns its new position.
    pub fn evolve_state(&mut self) -> (r: u64)
        requires
            old(self).wf(),
        ensures
            final(self).wf(),
            final(self)@ == (ConnectorModel {
                state: next_state(old(self)@.prime as int, old(self)@.generator as int, old(self)@.state as int) as nat,
                ..old(self)@
            }),
            r == final(self)@.state,
    {
        proof {
            lemma_prime_product_nonzero(self.prime as int, self.state as int, self.generator as int);
            assert((self.state as int) * (self.generator as int) < u64_range() * u64_range())
                by (nonlinear_arith)
                requires
                    self.state < u64_range(),
                    self.generator < u64_range(),
            ;
        }
        self.state = ((self.state as u128 * self.generator as u128) % self.prime as u128) as u64;
        self.state
    }
}

impl DBConnector {
    /// The size in bytes of the data file, when it fits in 64 bits.
    pub fn data_size(&self) -> (r: Option<u64>)
        requires
            self.wf(),
        ensures
            r is Some <==> data_size_of(self@) < u64_range(),
            r matches Some(n) ==> n == data_size_of(self@),
    {
        (self.prime - 1).checked_mul(self.block_size as u64)
    }

    /// Compares the data file's actual size with the size the configuration
    /// asks for.
    pub fn check_datafile(&self, actual_size: u64) -> (r: Result<(), ConfigError>)
        requires
            self.wf(),
        ensures
            data_size_of(self@) >= u64_range() ==> r == Err::<(), ConfigError>(
                ConfigError::DataTooLarge,
            ),
            data_size_of(self@) < u64_range() ==> (r is Ok <==> actual_size == data_size_of(
                self@,
            )),
            data_size_of(self@) < u64_range() && r is Err ==> r == Err::<(), ConfigError>(
                ConfigError::DataSizeMismatch,
            ),
    {
        match self.data_size() {
            None => Err(ConfigError::DataTooLarge),
            Some(n) => if n == actual_size {
                Ok(())
            } else {
                Err(ConfigError::DataSizeMismatch)
            },
        }
    }

    /// Takes a persisted state as the generator's position, provided it lies
    /// in `[1, prime)`.
    pub fn load_state(&mut self, record: u64) -> (r: Result<(), ConfigError>)
        requires
            old(self).wf(),
        ensures
            final(self).wf(),
            (1 <= record < old(self)@.prime) <==> r is Ok,
            r is Ok ==> final(self)@ == (ConnectorModel { state: record as nat, ..old(self)@ }),
            r is Err ==> r == Err::<(), ConfigError>(ConfigError::InvalidState) && final(self)@
                == old(self)@,
    {
        if record == 0 || record >= self.prime {
            return Err(ConfigError::InvalidState);
        }
        self.state = record;
        Ok(())
    }

    /// Decides how the store starts, given the code order, the data file's
    /// current length and, unless the state file is empty, the state it holds.
    /// On success the persisted state, if any, becomes the generator's
    /// position, and the result says whether the data file is still to be
    /// zero-filled. Nothing changes on an error.
    pub fn ensure(&mut self, order: usize, data_len: u64, stored_state: Option<u64>) -> (r: Result<
        bool,
        ConfigError,
    >)
        requires
            old(self).wf(),
        ensures
            final(self).wf(),
            startup_error(old(self)@, order as nat, data_len as int, stored_state) matches Some(
                e,
            ) ==> r == Err::<bool, ConfigError>(e) && final(self)@ == old(self)@,
            startup_error(old(self)@, order as nat, data_len as int, stored_state) is None ==> r
                == Ok::<bool, ConfigError>(data_len == 0) && final(self)@ == (ConnectorModel {
                state: match stored_state {
                    Some(s) => s as nat,
                    None => old(self)@.state,
                },
                ..old(self)@
            }),
    {
        if !fits_in_codes(self.prime, order) {
            return Err(ConfigError::PrimeTooBig);
        }
        let size = match self.data_size() {
            Some(n) => n,
            None => return Err(ConfigError::DataTooLarge),
        };
        if data_len != 0 && data_len != size {
            return Err(ConfigError::DataSizeMismatch);
        }
        if let Some(s) = stored_state {
            if s == 0 || s >= self.prime {
                return Err(ConfigError::InvalidState);
            }
            self.state = s;
        }
        Ok(data_len == 0)
    }
}

impl DBConnector {
    /// The slot that `code` names under codes of `order` symbols, or `None`
    /// when the code has another length, holds a character outside the
    /// alphabet, or denotes 0 or an index not below the prime.
    pub fn find_slot(&self, order: usize, code: &String) -> (r: Option<u64>)
        requires
            self.wf(),
        ensures
            r matches Some(slot) ==> slot_of_code(self@, order as nat, code@) == Some(slot as int),
            r is None ==> slot_of_code(self@, order as nat, code@) is None,
    {
        if code.as_str().unicode_len() != order {
            return None;
        }
        let index = match code_to_index(code) {
            Ok(i) => i,
            Err(_) => return None,
        };
        proof {
            lemma_code_value_range(code@);
        }
        if index == 0 || index >= self.prime {
            // The decoded index is the code's value reduced below 2^64, and the
            // prime lies below 2^64 too.
            return None;
        }
        // The decoded index wraps at 64 bits: the code denotes it exactly when
        // it is the index's own code.
        let again = index_to_code(index, order);
        proof {
            lemma_decode_encoded(index as int, order as nat);
            lemma_encoded_code_value(code@);
            vstd::arithmetic::div_mod::lemma_small_mod(index as nat, pow64(order as nat) as nat);
            if code_value(code@) < u64_range() {
                vstd::arithmetic::div_mod::lemma_small_mod(
                    code_value(code@) as nat,
                    u64_range() as nat,
                );
            }
        }
        if again != *code {
            return None;
        }
        Some(index - 1)
    }

    /// Checks a payload and lays out where and how it is stored: the slot of
    /// the generator's current position, the payload padded with zeros to a
    /// full block, and the code of that position. Nothing changes here; the
    /// caller writes the block, then moves the generator on.
    pub fn prepare_add(&self, order: usize, payload: &Vec<u8>) -> (r: Result<PendingAdd, AddError>)
        requires
            self.wf(),
        ensures
            payload@.len() == 0 ==> r == Err::<PendingAdd, AddError>(AddError::PayloadEmpty),
            payload@.len() > self@.block_size ==> r == Err::<PendingAdd, AddError>(
                AddError::PayloadTooLarge,
            ),
            0 < payload@.len() <= self@.block_size ==> r is Ok,
            r matches Ok(p) ==> {
                &&& p.slot == self@.state - 1
                &&& p.block@ == padded(payload@, self@.block_size)
                &&& p.code@ == encoded(self@.state as int, order as nat)
            },
    {
        if payload.len() == 0 {
            return Err(AddError::PayloadEmpty);
        }
        if payload.len() > self.block_size {
            return Err(AddError::PayloadTooLarge);
        }
        let mut block: Vec<u8> = Vec::new();
        let mut i: usize = 0;
        while i < payload.len()
            invariant
                i <= payload.len(),
                block@ == payload@.take(i as int),
            decreases payload.len() - i,
        {
            block.push(payload[i]);
            i = i + 1;
            assert(block@ =~= payload@.take(i as int));
        }
        while i < self.block_size
            invariant
                payload.len() <= i <= self.block_size,
                block@ == padded(payload@, i as nat),
            decreases self.block_size - i,
        {
            block.push(0u8);
            i = i + 1;
            assert(block@ =~= padded(payload@, i as nat));
        }
        let state = self.state;
        Ok(PendingAdd { slot: state - 1, block, code: index_to_code(state, order) })
    }
}

/// The payload a block read from the store holds: `None` when its first byte
/// is zero (the slot was never written), else the block without its trailing
/// zero bytes.
pub fn stored_payload(block: &Vec<u8>) -> (r: Option<Vec<u8>>)
    ensures
        r matches Some(v) ==> payload_of(block@) == Some(v@),
        r is None ==> payload_of(block@) is None,
{
    if block.len() == 0 || block[0] == 0 {
        return None;
    }
    let mut end: usize = block.len();
    assert(block@.take(end as int) =~= block@);
    while end > 0 && block[end - 1] == 0
        invariant
            end <= block.len(),
            strip_zeros(block@) == strip_zeros(block@.take(end as int)),
        decreases end,
    {
        assert(block@.take(end as int).drop_last() =~= block@.take(end - 1));
        end = end - 1;
    }
    let mut payload: Vec<u8> = Vec::new();
    let mut i: usize = 0;
    while i < end
        invariant
            i <= end <= block.len(),
            payload@ == block@.take(i as int),
        decreases end - i,
    {
        payload.push(block[i]);
        i = i + 1;
        assert(payload@ =~= block@.take(i as int));
    }
    proof {
        let t = block@.take(end as int);
        assert(payload@ =~= t);
        assert(block@.take(block.len() as int) =~= block@);
        assert(strip_zeros(t) == t);
    }
    Some(payload)
}

/// Storing a payload and then looking up the code it was given finds it again:
/// after the generator has moved on, the code still names the slot that the
/// block went to, and that block yields the payload byte for byte. A payload
/// that starts or ends with a zero byte cannot be told apart from padding, so
/// the law speaks of the others.
pub proof fn lemma_add_then_get(m: ConnectorModel, order: nat, payload: Seq<u8>)
    requires
        valid_model(m),
        m.prime < pow64(order),
        0 < payload.len() <= m.block_size,
        payload[0] != 0,
        payload.last() != 0,
    ensures
        ({
            let after = ConnectorModel {
                state: next_state(m.prime as int, m.generator as int, m.state as int) as nat,
                ..m
            };
            slot_of_code(after, order, encoded(m.state as int, order)) == Some(m.state - 1)
        }),
        payload_of(padded(payload, m.block_size)) == Some(payload),
{
    crate::codec::lemma_pow64_positive(order);
    crate::codec::lemma_codec_round_trip(m.state as int, order);
    let b = padded(payload, m.block_size);
    lemma_strip_padding(payload, m.block_size);
    assert(b[0] == payload[0]);
}

proof fn lemma_strip_padding(payload: Seq<u8>, size: nat)
    requires
        payload.len() <= size,
        payload.len() > 0 ==> payload.last() != 0,
    ensures
        strip_zeros(padded(payload, size)) == payload,
    decreases size,
{
    let b = padded(payload, size);
    if size == payload.len() {
        assert(b =~= payload);
    } else {
        assert(b.drop_last() =~= padded(payload, (size - 1) as nat));
        lemma_strip_padding(payload, (size - 1) as nat);
    }
}

/// A lookup finds nothing for a code of the wrong length, for a code that
/// denotes 0 or an index not below the prime, and in a slot that was never
/// written (all zeros).
pub proof fn lemma_get_rejects(m: ConnectorModel, order: nat, code: Seq<char>, size: nat)
    ensures
        code.len() != order ==> slot_of_code(m, order, code) is None,
        is_code(code) && (code_value(code) == 0 || code_value(code) >= m.prime) ==> slot_of_code(
            m,
            order,
            code,
        ) is None,
        payload_of(Seq::new(size, |i: int| 0u8)) is None,
{
}

} // verus!
