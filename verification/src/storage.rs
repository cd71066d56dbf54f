//! The pluggable engines: the engine kinds, the store contract they share,
//! and the data-directory marker that refuses a directory written by a
//! different engine.

use crate::error::TsaError;
use crate::kvmemory::KvMemory;
use crate::store::KvStore;
use vstd::prelude::*;
use vstd::slice::slice_subrange;
use vstd::string::StringExecFns;
use vstd::utf8::encode_utf8;

verus! {

/// The storage engine kinds.
#[derive(Debug, Clone, Copy, PartialEq, Eq, Structural)]
pub enum Engine {
    /// The log-structured engine of this crate.
    Kvs,
    /// An embedded tree-based store (an external collaborator).
    Sled,
    /// The in-memory map.
    Memory,
}

impl Engine {
    /// The engine's name, as written in the marker file.
    pub open spec fn name_spec(&self) -> Seq<char> {
        match self {
            Engine::Kvs => "kvs"@,
            Engine::Sled => "sled"@,
            Engine::Memory => "memory"@,
        }
    }

    /// The engine's name.
    pub fn as_str(&self) -> (r: &'static str)
        ensures
            r@ == self.name_spec(),
    {
        match self {
            Engine::Kvs => "kvs",
            Engine::Sled => "sled",
            Engine::Memory => "memory",
        }
    }

    /// Parses an engine name, ASCII case-insensitively.
    pub fn from_str(s: &str) -> (r: Result<Engine, TsaError>)
        ensures
            match r {
                Ok(e) => lower_bytes(encode_utf8(s@)) == lower_bytes(encode_utf8(e.name_spec())),
                Err(err) => err is Protocol && forall|e: Engine|
                    lower_bytes(encode_utf8(s@)) != lower_bytes(
                        encode_utf8(#[trigger] e.name_spec()),
                    ),
            },
    {
        let b = s.as_bytes();
        if eq_ignore_ascii_case(b, "kvs".as_bytes()) {
            Ok(Engine::Kvs)
        } else if eq_ignore_ascii_case(b, "sled".as_bytes()) {
            Ok(Engine::Sled)
        } else if eq_ignore_ascii_case(b, "memory".as_bytes()) {
            Ok(Engine::Memory)
        } else {
            proof {
                assert forall|e: Engine| lower_bytes(encode_utf8(s@)) != lower_bytes(
                    encode_utf8(#[trigger] e.name_spec()),
                ) by {
                    if e is Kvs {
                    } else if e is Sled {
                    } else {
                    }
                }
            }
            Err(TsaError::Protocol(String::from_str("invalid engine name")))
        }
    }
}

/// A byte with any ASCII upper-case letter folded to lower case.
pub open spec fn lower_byte(b: u8) -> u8 {
    if 65 <= b <= 90 {
        (b + 32) as u8
    } else {
        b
    }
}

/// A byte sequence with ASCII upper-case letters folded to lower case.
pub open spec fn lower_bytes(s: Seq<u8>) -> Seq<u8> {
    s.map_values(|b: u8| lower_byte(b))
}

/// Compares two byte strings, ASCII case-insensitively.
fn eq_ignore_ascii_case(a: &[u8], b: &[u8]) -> (r: bool)
    ensures
        r <==> lower_bytes(a@) == lower_bytes(b@),
{
    let n = a.len();
    if n != b.len() {
        proof {
            assert(lower_bytes(a@).len() != lower_bytes(b@).len());
        }
        return false;
    }
    let mut i: usize = 0;
    while i < n
        invariant
            n == a@.len(),
            n == b@.len(),
            0 <= i <= n,
            forall|t: int| 0 <= t < i ==> lower_byte(a@[t]) == lower_byte(b@[t]),
        decreases n - i,
    {
        let mut x = a[i];
        let mut y = b[i];
        if 65 <= x && x <= 90 {
            x = x + 32;
        }
        if 65 <= y && y <= 90 {
            y = y + 32;
        }
        if x != y {
            proof {
                assert(lower_bytes(a@)[i as int] != lower_bytes(b@)[i as int]);
            }
            return false;
        }
        i += 1;
    }
    proof {
        assert(lower_bytes(a@) =~= lower_bytes(b@));
    }
    true
}

/// Compares two byte strings.
fn bytes_eq(a: &[u8], b: &[u8]) -> (r: bool)
    ensures
        r <==> a@ == b@,
{
    let n = a.len();
    if n != b.len() {
        return false;
    }
    let mut i: usize = 0;
    while i < n
        invariant
            n == a@.len(),
            n == b@.len(),
            0 <= i <= n,
            forall|t: int| 0 <= t < i ==> a@[t] == b@[t],
        decreases n - i,
    {
        if a[i] != b[i] {
            return false;
        }
        i += 1;
    }
    proof {
        assert(a@ =~= b@);
    }
    true
}

/// Whether the byte is ASCII whitespace, as a marker file may carry.
pub open spec fn is_ws(b: u8) -> bool {
    b == 32 || b == 9 || b == 10 || b == 13
}

/// The bytes with leading whitespace dropped.
pub open spec fn trim_front(s: Seq<u8>) -> Seq<u8>
    decreases s.len(),
{
    if s.len() > 0 && is_ws(s[0]) {
        trim_front(s.drop_first())
    } else {
        s
    }
}

/// The bytes with trailing whitespace dropped.
pub open spec fn trim_back(s: Seq<u8>) -> Seq<u8>
    decreases s.len(),
{
    if s.len() > 0 && is_ws(s.last()) {
        trim_back(s.drop_last())
    } else {
        s
    }
}

/// The bytes with surrounding whitespace dropped.
pub open spec fn trim_spec(s: Seq<u8>) -> Seq<u8> {
    trim_back(trim_front(s))
}

proof fn lemma_trim_front_skip(s: Seq<u8>, i: int)
    requires
        0 <= i <= s.len(),
        forall|t: int| 0 <= t < i ==> is_ws(s[t]),
        i < s.len() ==> !is_ws(s[i]),
    ensures
        trim_front(s) =~= s.skip(i),
    decreases i,
{
    if i == 0 {
        assert(s.skip(0) =~= s);
    } else {
        assert(is_ws(s[0]));
        lemma_trim_front_skip(s.drop_first(), i - 1);
        assert(s.drop_first().skip(i - 1) =~= s.skip(i));
    }
}

proof fn lemma_trim_back_take(s: Seq<u8>, j: int)
    requires
        0 <= j <= s.len(),
        forall|t: int| j <= t < s.len() ==> is_ws(s[t]),
        j > 0 ==> !is_ws(s[j - 1]),
    ensures
        trim_back(s) =~= s.take(j),
    decreases s.len() - j,
{
    if j == s.len() {
        assert(s.take(j) =~= s);
    } else {
        assert(is_ws(s.last()));
        lemma_trim_back_take(s.drop_last(), j);
        assert(s.drop_last().take(j) =~= s.take(j));
    }
}

/// The marker's content with surrounding whitespace dropped.
fn trim_slice<'a>(b: &'a [u8]) -> (r: &'a [u8])
    ensures
        r@ == trim_spec(b@),
{
    let n = b.len();
    let mut i: usize = 0;
    while i < n && is_ws_exec(b[i])
        invariant
            n == b@.len(),
            0 <= i <= n,
            forall|t: int| 0 <= t < i ==> is_ws(b@[t]),
        decreases n - i,
    {
        i += 1;
    }
    let mut j: usize = n;
    while j > i && is_ws_exec(b[j - 1])
        invariant
            n == b@.len(),
            0 <= i <= j <= n,
            forall|t: int| 0 <= t < i ==> is_ws(b@[t]),
            i < n ==> !is_ws(b@[i as int]),
            forall|t: int| j <= t < n ==> is_ws(b@[t]),
        decreases j,
    {
        j -= 1;
    }
    proof {
        lemma_trim_front_skip(b@, i as int);
        if j > i {
            lemma_trim_back_take(b@.skip(i as int), j - i);
        } else {
            assert(j == i);
            assert(b@.skip(i as int).take(0) =~= Seq::<u8>::empty());
            if i < n {
                assert(is_ws(b@[i as int]));
                assert(false);
            }
            assert(b@.skip(i as int) =~= Seq::<u8>::empty());
            lemma_trim_back_take(b@.skip(i as int), 0);
        }
        assert(trim_spec(b@) =~= b@.subrange(i as int, j as int));
    }
    slice_subrange(b, i, j)
}

/// Whether the byte is ASCII whitespace.
fn is_ws_exec(b: u8) -> (r: bool)
    ensures
        r == is_ws(b),
{
    b == 32 || b == 9 || b == 10 || b == 13
}

/// Decides whether a data directory may be opened with the requested
/// engine.  With no marker present, the engine's name is to be written:
/// `Ok` with the line for the shell to store.  With a marker naming the
/// same engine (ignoring surrounding whitespace), `Ok(None)`: proceed.
/// Otherwise `WrongEngine`: the directory belongs to another engine.
pub fn check_engine(marker: Option<String>, requested: Engine) -> (r: Result<
    Option<String>,
    TsaError,
>)
    ensures
        match marker {
            Option::None => match r {
                Ok(w) => w is Some && w->0@ == requested.name_spec(),
                Err(_) => false,
            },
            Option::Some(m) => if trim_spec(encode_utf8(m@)) == encode_utf8(
                requested.name_spec(),
            ) {
                r == Ok::<Option<String>, TsaError>(None)
            } else {
                r == Err::<Option<String>, TsaError>(TsaError::WrongEngine)
            },
        },
{
    match marker {
        None => Ok(Some(String::from_str(requested.as_str()))),
        Some(m) => {
            let mb = m.as_str().as_bytes();
            let trimmed = trim_slice(mb);
            let nb = requested.as_str().as_bytes();
            if bytes_eq(trimmed, nb) {
                Ok(None)
            } else {
                Err(TsaError::WrongEngine)
            }
        },
    }
}

/// The contract the pluggable engines share: a visible key/value state
/// that `set`, `get` and `remove` consult and update.
pub trait StoreTrait: Sized {
    /// The visible key/value state.
    spec fn sview(&self) -> Map<Seq<char>, Seq<char>>;

    /// Validity carried between calls.
    spec fn inv(&self) -> bool;

    /// Sets the value of a key.
    fn set(&mut self, key: String, value: String) -> (r: Result<(), TsaError>)
        requires
            old(self).inv(),
        ensures
            final(self).inv(),
            r is Ok ==> final(self).sview() == old(self).sview().insert(key@, value@),
            r is Err ==> final(self).sview() == old(self).sview(),
    ;

    /// Gets the value of a key, `None` when it is absent.
    fn get(&self, key: String) -> (r: Result<Option<String>, TsaError>)
        requires
            self.inv(),
        ensures
            match r {
                Ok(v) => match v {
                    Option::Some(s) => self.sview().contains_key(key@) && s@
                        == self.sview()[key@],
                    Option::None => !self.sview().contains_key(key@),
                },
                Err(_) => true,
            },
    ;

    /// Removes a key; fails when it has no value.
    fn remove(&mut self, key: String) -> (r: Result<(), TsaError>)
        requires
            old(self).inv(),
        ensures
            final(self).inv(),
            r is Ok ==> final(self).sview() == old(self).sview().remove(key@),
            r is Err ==> final(self).sview() == old(self).sview(),
            !old(self).sview().contains_key(key@) ==> r is Err,
    ;
}

impl StoreTrait for KvStore {
    open spec fn sview(&self) -> Map<Seq<char>, Seq<char>> {
        self@
    }

    open spec fn inv(&self) -> bool {
        self.wf()
    }

    fn set(&mut self, key: String, value: String) -> (r: Result<(), TsaError>) {
        KvStore::set(self, key, value)
    }

    fn get(&self, key: String) -> (r: Result<Option<String>, TsaError>) {
        KvStore::get(self, key)
    }

    fn remove(&mut self, key: String) -> (r: Result<(), TsaError>) {
        KvStore::remove(self, key)
    }
}

impl StoreTrait for KvMemory {
    open spec fn sview(&self) -> Map<Seq<char>, Seq<char>> {
        self@
    }

    open spec fn inv(&self) -> bool {
        self.wf()
    }

    fn set(&mut self, key: String, value: String) -> (r: Result<(), TsaError>) {
        KvMemory::set(self, key, value)
    }

    fn get(&self, key: String) -> (r: Result<Option<String>, TsaError>) {
        KvMemory::get(self, key)
    }

    fn remove(&mut self, key: String) -> (r: Result<(), TsaError>) {
        KvMemory::remove(self, key)
    }
}

} // verus!
