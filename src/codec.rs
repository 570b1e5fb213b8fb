//! The binary container: Stage, Results and Groupings as one self-describing
//! MessagePack value of arrays, maps, integers and strings. Map keys and set
//! members are written in increasing order, so equal data give equal bytes.
use crate::model::{
    Area, AreaID, Candidate, CandidateID, Date, District, DistrictID, DistrictResults, ElectionResults, ElectionStage,
    Grouping, Groupings, Party, PartyID, PartyListSource, PartyType, SeatCount,
};
use crate::order::{
    lemma_ordered, ordered, sorted_area_keys, sorted_ids, sorted_keys, sorted_party_keys, widen, widen16,
};
use crate::wire::{
    enc_array_len, enc_map_len, enc_text, enc_u32, lemma_read_array_len, lemma_read_map_len, lemma_read_text,
    lemma_read_u32, put_array_len, put_map_len, put_text, put_u32, read_array_len, read_map_len, read_text, read_u32,
    take_array_len, take_map_len, take_text, take_u32, text_fits, unread,
};
use std::collections::{HashMap, HashSet};
use vstd::prelude::*;

verus! {

broadcast use vstd::std_specs::hash::group_hash_axioms;

/// A value with a byte form in the container.
pub trait Wire: Sized {
    /// The mathematical value that the bytes carry.
    type W;

    spec fn wv(&self) -> Self::W;

    /// The value fits the format (every length fits in 32 bits).
    spec fn fits(w: Self::W) -> bool;

    /// The bytes of a value.
    spec fn enc(w: Self::W) -> Seq<u8>;

    /// Reads a value from the front of `b`, with the bytes after it.
    spec fn dec(b: Seq<u8>) -> Option<(Self::W, Seq<u8>)>;

    /// Whether the value fits the format.
    fn fits_now(&self) -> (r: bool)
        ensures
            r == Self::fits(self.wv()),
    ;

    fn put(&self, out: &mut Vec<u8>)
        requires
            Self::fits(self.wv()),
        ensures
            final(out)@ == old(out)@ + Self::enc(self.wv()),
    ;

    fn take(b: &[u8]) -> (r: Option<(Self, &[u8])>)
        ensures
            match r {
                Some((v, t)) => Self::dec(b@) == Some((v.wv(), t@)),
                None => Self::dec(b@) is None,
            },
    ;

    /// Reading back what was written gives the value and the bytes after it.
    proof fn lemma_dec_enc(w: Self::W, rest: Seq<u8>)
        requires
            Self::fits(w),
        ensures
            Self::dec(Self::enc(w) + rest) == Some((w, rest)),
    ;
}

impl Wire for u32 {
    type W = u32;

    open spec fn wv(&self) -> u32 {
        *self
    }

    open spec fn fits(w: u32) -> bool {
        true
    }

    open spec fn enc(w: u32) -> Seq<u8> {
        enc_u32(w)
    }

    open spec fn dec(b: Seq<u8>) -> Option<(u32, Seq<u8>)> {
        read_u32(b)
    }

    fn fits_now(&self) -> (r: bool) {
        true
    }

    fn put(&self, out: &mut Vec<u8>) {
        put_u32(out, *self);
    }

    fn take(b: &[u8]) -> (r: Option<(u32, &[u8])>) {
        take_u32(b)
    }

    proof fn lemma_dec_enc(w: u32, rest: Seq<u8>) {
        lemma_read_u32(w, rest);
    }
}

impl Wire for u8 {
    type W = u8;

    open spec fn wv(&self) -> u8 {
        *self
    }

    open spec fn fits(w: u8) -> bool {
        true
    }

    open spec fn enc(w: u8) -> Seq<u8> {
        enc_u32(w as u32)
    }

    open spec fn dec(b: Seq<u8>) -> Option<(u8, Seq<u8>)> {
        match read_u32(b) {
            Some((v, r)) => if v < 256 {
                Some((v as u8, r))
            } else {
                None
            },
            None => None,
        }
    }

    fn fits_now(&self) -> (r: bool) {
        true
    }

    fn put(&self, out: &mut Vec<u8>) {
        put_u32(out, *self as u32);
    }

    fn take(b: &[u8]) -> (r: Option<(u8, &[u8])>) {
        match take_u32(b) {
            Some((v, r)) => if v < 256 {
                Some((v as u8, r))
            } else {
                None
            },
            None => None,
        }
    }

    proof fn lemma_dec_enc(w: u8, rest: Seq<u8>) {
        lemma_read_u32(w as u32, rest);
    }
}

impl Wire for u16 {
    type W = u16;

    open spec fn wv(&self) -> u16 {
        *self
    }

    open spec fn fits(w: u16) -> bool {
        true
    }

    open spec fn enc(w: u16) -> Seq<u8> {
        enc_u32(w as u32)
    }

    open spec fn dec(b: Seq<u8>) -> Option<(u16, Seq<u8>)> {
        match read_u32(b) {
            Some((v, r)) => if v < 0x10000 {
                Some((v as u16, r))
            } else {
                None
            },
            None => None,
        }
    }

    fn fits_now(&self) -> (r: bool) {
        true
    }

    fn put(&self, out: &mut Vec<u8>) {
        put_u32(out, *self as u32);
    }

    fn take(b: &[u8]) -> (r: Option<(u16, &[u8])>) {
        match take_u32(b) {
            Some((v, r)) => if v < 0x10000 {
                Some((v as u16, r))
            } else {
                None
            },
            None => None,
        }
    }

    proof fn lemma_dec_enc(w: u16, rest: Seq<u8>) {
        lemma_read_u32(w as u32, rest);
    }
}

impl Wire for String {
    type W = Seq<char>;

    open spec fn wv(&self) -> Seq<char> {
        self@
    }

    open spec fn fits(w: Seq<char>) -> bool {
        text_fits(w)
    }

    open spec fn enc(w: Seq<char>) -> Seq<u8> {
        enc_text(w)
    }

    open spec fn dec(b: Seq<u8>) -> Option<(Seq<char>, Seq<u8>)> {
        read_text(b)
    }

    fn fits_now(&self) -> (r: bool) {
        let t = self.as_str();
        let b = t.as_bytes();
        b.len() <= 0xffff_ffff
    }

    fn put(&self, out: &mut Vec<u8>) {
        put_text(out, self);
    }

    fn take(b: &[u8]) -> (r: Option<(String, &[u8])>) {
        take_text(b)
    }

    proof fn lemma_dec_enc(w: Seq<char>, rest: Seq<u8>) {
        lemma_read_text(w, rest);
    }
}

/// An optional value is an array of none or one element.
impl<T: Wire> Wire for Option<T> {
    type W = Option<T::W>;

    open spec fn wv(&self) -> Option<T::W> {
        match self {
            Some(v) => Some(v.wv()),
            None => None,
        }
    }

    open spec fn fits(w: Option<T::W>) -> bool {
        w matches Some(v) ==> T::fits(v)
    }

    open spec fn enc(w: Option<T::W>) -> Seq<u8> {
        match w {
            Some(v) => enc_array_len(1) + T::enc(v),
            None => enc_array_len(0),
        }
    }

    open spec fn dec(b: Seq<u8>) -> Option<(Option<T::W>, Seq<u8>)> {
        match read_array_len(b) {
            Some((n, r)) => if n == 0 {
                Some((None, r))
            } else if n == 1 {
                match T::dec(r) {
                    Some((v, r2)) => Some((Some(v), r2)),
                    None => None,
                }
            } else {
                None
            },
            None => None,
        }
    }

    fn fits_now(&self) -> (r: bool) {
        match self {
            Some(v) => v.fits_now(),
            None => true,
        }
    }

    fn put(&self, out: &mut Vec<u8>) {
        match self {
            Some(v) => {
                put_array_len(out, 1);
                v.put(out);
            },
            None => put_array_len(out, 0),
        }
        assert(final(out)@ =~= old(out)@ + Self::enc(self.wv()));
    }

    fn take(b: &[u8]) -> (r: Option<(Option<T>, &[u8])>) {
        match take_array_len(b) {
            Some((n, r)) => if n == 0 {
                Some((None, r))
            } else if n == 1 {
                match T::take(r) {
                    Some((v, r2)) => Some((Some(v), r2)),
                    None => None,
                }
            } else {
                None
            },
            None => None,
        }
    }

    proof fn lemma_dec_enc(w: Option<T::W>, rest: Seq<u8>) {
        match w {
            Some(v) => {
                assert(Self::enc(w) + rest =~= enc_array_len(1) + (T::enc(v) + rest));
                lemma_read_array_len(1, T::enc(v) + rest);
                T::lemma_dec_enc(v, rest);
            },
            None => {
                lemma_read_array_len(0, rest);
            },
        }
    }
}

/// The bytes of a sequence of values, one after another.
pub open spec fn enc_items<T: Wire>(q: Seq<T::W>) -> Seq<u8>
    decreases q.len(),
{
    if q.len() == 0 {
        seq![]
    } else {
        enc_items::<T>(q.drop_last()) + T::enc(q.last())
    }
}

/// Reads `n` more values after those in `acc`.
pub open spec fn dec_items<T: Wire>(b: Seq<u8>, n: nat, acc: Seq<T::W>) -> Option<(Seq<T::W>, Seq<u8>)>
    decreases n,
{
    if n == 0 {
        Some((acc, b))
    } else {
        match T::dec(b) {
            Some((v, r)) => dec_items::<T>(r, (n - 1) as nat, acc.push(v)),
            None => None,
        }
    }
}

/// Every value of the sequence fits the format.
pub open spec fn all_fit<T: Wire>(q: Seq<T::W>) -> bool {
    forall|i: int| 0 <= i < q.len() ==> T::fits(#[trigger] q[i])
}

proof fn lemma_enc_items_front<T: Wire>(q: Seq<T::W>)
    requires
        q.len() > 0,
    ensures
        enc_items::<T>(q) == T::enc(q[0]) + enc_items::<T>(q.drop_first()),
    decreases q.len(),
{
    if q.len() == 1 {
        assert(q.drop_last() =~= Seq::<T::W>::empty());
        assert(q.drop_first() =~= Seq::<T::W>::empty());
        assert(enc_items::<T>(q.drop_last()) == Seq::<u8>::empty());
        assert(enc_items::<T>(q.drop_first()) == Seq::<u8>::empty());
        assert(q.last() == q[0]);
        assert(enc_items::<T>(q) =~= T::enc(q[0]) + enc_items::<T>(q.drop_first()));
    } else {
        lemma_enc_items_front::<T>(q.drop_last());
        assert(q.drop_last().drop_first() =~= q.drop_first().drop_last());
        assert(q.drop_first().last() == q.last());
        assert(enc_items::<T>(q) =~= T::enc(q[0]) + enc_items::<T>(q.drop_first()));
    }
}

proof fn lemma_dec_items<T: Wire>(q: Seq<T::W>, i: int, rest: Seq<u8>)
    requires
        0 <= i <= q.len(),
        all_fit::<T>(q),
    ensures
        dec_items::<T>(enc_items::<T>(q.skip(i)) + rest, (q.len() - i) as nat, q.take(i)) == Some((q, rest)),
    decreases q.len() - i,
{
    if i == q.len() {
        assert(q.skip(i) =~= Seq::<T::W>::empty());
        assert(enc_items::<T>(q.skip(i)) + rest =~= rest);
        assert(q.take(i) =~= q);
    } else {
        lemma_enc_items_front::<T>(q.skip(i));
        assert(q.skip(i).drop_first() =~= q.skip(i + 1));
        assert(q.skip(i)[0] == q[i]);
        let b = enc_items::<T>(q.skip(i)) + rest;
        assert(b =~= T::enc(q[i]) + (enc_items::<T>(q.skip(i + 1)) + rest));
        T::lemma_dec_enc(q[i], enc_items::<T>(q.skip(i + 1)) + rest);
        assert(q.take(i).push(q[i]) =~= q.take(i + 1));
        lemma_dec_items::<T>(q, i + 1, rest);
    }
}

/// Writes the values of `v` one after another.
fn put_items<T: Wire>(out: &mut Vec<u8>, v: &Vec<T>)
    requires
        forall|i: int| 0 <= i < v@.len() ==> T::fits((#[trigger] v@[i]).wv()),
    ensures
        final(out)@ == old(out)@ + enc_items::<T>(Seq::new(v@.len(), |i: int| v@[i].wv())),
{
    let ghost w = Seq::new(v@.len(), |i: int| v@[i].wv());
    let ghost start = out@;
    let mut i: usize = 0;
    assert(w.take(0) =~= Seq::<T::W>::empty());
    while i < v.len()
        invariant
            i <= v@.len(),
            w == Seq::new(v@.len(), |i: int| v@[i].wv()),
            forall|i: int| 0 <= i < v@.len() ==> T::fits((#[trigger] v@[i]).wv()),
            out@ == start + enc_items::<T>(w.take(i as int)),
        decreases v@.len() - i,
    {
        v[i].put(out);
        assert(w.take(i + 1).drop_last() =~= w.take(i as int));
        assert(out@ =~= start + enc_items::<T>(w.take(i + 1)));
        i = i + 1;
    }
    assert(w.take(i as int) =~= w);
}

/// Reads `n` values.
fn take_items<'a, T: Wire>(b: &'a [u8], n: u32) -> (r: Option<(Vec<T>, &'a [u8])>)
    ensures
        match r {
            Some((v, t)) => dec_items::<T>(b@, n as nat, seq![]) == Some((Seq::new(v@.len(), |i: int| v@[i].wv()), t@)),
            None => dec_items::<T>(b@, n as nat, seq![]) is None,
        },
{
    let mut acc: Vec<T> = Vec::new();
    let mut cur = b;
    let mut k: u32 = 0;
    assert(Seq::new(acc@.len(), |i: int| acc@[i].wv()) =~= Seq::<T::W>::empty());
    while k < n
        invariant
            k <= n,
            dec_items::<T>(b@, n as nat, seq![]) == dec_items::<T>(cur@, (n - k) as nat, Seq::new(acc@.len(), |i: int| acc@[i].wv())),
        decreases n - k,
    {
        let ghost before = Seq::new(acc@.len(), |i: int| acc@[i].wv());
        match T::take(cur) {
            Some((v, rest)) => {
                acc.push(v);
                cur = rest;
                assert(Seq::new(acc@.len(), |i: int| acc@[i].wv()) =~= before.push(v.wv()));
            },
            None => {
                return None;
            },
        }
        k = k + 1;
    }
    Some((acc, cur))
}

/// A sequence is an array of its values.
impl<T: Wire> Wire for Vec<T> {
    type W = Seq<T::W>;

    open spec fn wv(&self) -> Seq<T::W> {
        Seq::new(self@.len(), |i: int| self@[i].wv())
    }

    open spec fn fits(w: Seq<T::W>) -> bool {
        w.len() <= u32::MAX && all_fit::<T>(w)
    }

    open spec fn enc(w: Seq<T::W>) -> Seq<u8> {
        enc_array_len(w.len() as u32) + enc_items::<T>(w)
    }

    open spec fn dec(b: Seq<u8>) -> Option<(Seq<T::W>, Seq<u8>)> {
        match read_array_len(b) {
            Some((n, r)) => dec_items::<T>(r, n as nat, seq![]),
            None => None,
        }
    }

    fn fits_now(&self) -> (r: bool) {
        if self.len() > 0xffff_ffff {
            return false;
        }
        let mut i: usize = 0;
        while i < self.len()
            invariant
                i <= self@.len(),
                self@.len() <= u32::MAX,
                forall|j: int| 0 <= j < i ==> T::fits((#[trigger] self@[j]).wv()),
            decreases self@.len() - i,
        {
            if !self[i].fits_now() {
                assert(!all_fit::<T>(self.wv())) by {
                    assert(self.wv()[i as int] == self@[i as int].wv());
                }
                return false;
            }
            i = i + 1;
        }
        assert forall|j: int| 0 <= j < self.wv().len() implies T::fits(#[trigger] self.wv()[j]) by {
            assert(self.wv()[j] == self@[j].wv());
        }
        true
    }

    fn put(&self, out: &mut Vec<u8>) {
        put_array_len(out, self.len() as u32);
        assert forall|i: int| 0 <= i < self@.len() implies T::fits((#[trigger] self@[i]).wv()) by {
            assert(self.wv()[i] == self@[i].wv());
        }
        put_items(out, self);
        assert(final(out)@ =~= old(out)@ + Self::enc(self.wv()));
    }

    fn take(b: &[u8]) -> (r: Option<(Vec<T>, &[u8])>) {
        match take_array_len(b) {
            Some((n, r)) => take_items(r, n),
            None => None,
        }
    }

    proof fn lemma_dec_enc(w: Seq<T::W>, rest: Seq<u8>) {
        assert(Self::enc(w) + rest =~= enc_array_len(w.len() as u32) + (enc_items::<T>(w) + rest));
        lemma_read_array_len(w.len() as u32, enc_items::<T>(w) + rest);
        lemma_dec_items::<T>(w, 0, rest);
        assert(w.skip(0) =~= w);
        assert(w.take(0) =~= Seq::<T::W>::empty());
    }
}

/// A set of IDs is an array of its members in increasing order.
impl Wire for HashSet<u32> {
    type W = Set<u32>;

    open spec fn wv(&self) -> Set<u32> {
        self@
    }

    open spec fn fits(w: Set<u32>) -> bool {
        ordered(w).len() <= u32::MAX
    }

    open spec fn enc(w: Set<u32>) -> Seq<u8> {
        enc_array_len(ordered(w).len() as u32) + enc_items::<u32>(ordered(w))
    }

    open spec fn dec(b: Seq<u8>) -> Option<(Set<u32>, Seq<u8>)> {
        match read_array_len(b) {
            Some((n, r)) => match dec_items::<u32>(r, n as nat, seq![]) {
                Some((q, r2)) => if q.no_duplicates() {
                    Some((q.to_set(), r2))
                } else {
                    None
                },
                None => None,
            },
            None => None,
        }
    }

    fn fits_now(&self) -> (r: bool) {
        proof {
            lemma_ordered(self@);
            ordered(self@).unique_seq_to_set();
        }
        self.len() <= 0xffff_ffff
    }

    fn put(&self, out: &mut Vec<u8>) {
        let ids = sorted_ids(self);
        put_array_len(out, ids.len() as u32);
        put_items(out, &ids);
        assert(Seq::new(ids@.len(), |i: int| ids@[i].wv()) =~= ids@);
        assert(final(out)@ =~= old(out)@ + Self::enc(self.wv()));
    }

    fn take(b: &[u8]) -> (r: Option<(HashSet<u32>, &[u8])>) {
        let (n, r) = match take_array_len(b) {
            Some(x) => x,
            None => {
                return None;
            },
        };
        let (ids, rest) = match take_items::<u32>(r, n) {
            Some(x) => x,
            None => {
                return None;
            },
        };
        assert(Seq::new(ids@.len(), |i: int| ids@[i].wv()) =~= ids@);
        let mut set: HashSet<u32> = HashSet::new();
        let mut i: usize = 0;
        assert(ids@.take(0) =~= Seq::<u32>::empty());
        while i < ids.len()
            invariant
                i <= ids@.len(),
                set@ == ids@.take(i as int).to_set(),
                ids@.take(i as int).no_duplicates(),
                read_array_len(b@) == Some((n, r@)),
                dec_items::<u32>(r@, n as nat, seq![]) == Some((ids@, rest@)),
            decreases ids@.len() - i,
        {
            let x = ids[i];
            let fresh = set.insert(x);
            proof {
                crate::order::lemma_push_to_set(ids@.take(i as int), x);
                assert(ids@.take(i + 1) =~= ids@.take(i as int).push(x));
            }
            if !fresh {
                proof {
                    let k = choose|k: int| 0 <= k < i && ids@.take(i as int)[k] == x;
                    assert(ids@[k] == ids@[i as int]);
                    assert(!ids@.no_duplicates());
                    assert(Self::dec(b@) is None);
                }
                return None;
            }
            i = i + 1;
        }
        assert(ids@.take(i as int) =~= ids@);
        Some((set, rest))
    }

    proof fn lemma_dec_enc(w: Set<u32>, rest: Seq<u8>) {
        let q = ordered(w);
        lemma_ordered(w);
        assert(Self::enc(w) + rest =~= enc_array_len(q.len() as u32) + (enc_items::<u32>(q) + rest));
        lemma_read_array_len(q.len() as u32, enc_items::<u32>(q) + rest);
        lemma_dec_items::<u32>(q, 0, rest);
        assert(q.skip(0) =~= q);
        assert(q.take(0) =~= Seq::<u32>::empty());
    }
}

/// An ID type that keys a map of the container.
pub trait Key: Sized + Copy + Eq + std::hash::Hash {
    /// The keys of a set in the order the container lists them.
    spec fn order(s: Set<Self>) -> Seq<Self>;

    spec fn kenc(k: Self) -> Seq<u8>;

    spec fn kdec(b: Seq<u8>) -> Option<(Self, Seq<u8>)>;

    fn kput(&self, out: &mut Vec<u8>)
        ensures
            final(out)@ == old(out)@ + Self::kenc(*self),
    ;

    fn ktake(b: &[u8]) -> (r: Option<(Self, &[u8])>)
        ensures
            unread(r) == Self::kdec(b@),
    ;

    fn sorted<V>(m: &HashMap<Self, V>) -> (r: Vec<Self>)
        ensures
            r@ == Self::order(m@.dom()),
    ;

    proof fn lemma_order(s: Set<Self>)
        ensures
            Self::order(s).no_duplicates(),
            Self::order(s).to_set() == s,
    ;

    proof fn lemma_kdec(k: Self, rest: Seq<u8>)
        ensures
            Self::kdec(Self::kenc(k) + rest) == Some((k, rest)),
    ;

    proof fn lemma_key_model()
        ensures
            vstd::std_specs::hash::obeys_key_model::<Self>(),
    ;
}

impl Key for u32 {
    open spec fn order(s: Set<u32>) -> Seq<u32> {
        ordered(s)
    }

    open spec fn kenc(k: u32) -> Seq<u8> {
        u32::enc(k)
    }

    open spec fn kdec(b: Seq<u8>) -> Option<(u32, Seq<u8>)> {
        u32::dec(b)
    }

    fn kput(&self, out: &mut Vec<u8>) {
        self.put(out);
    }

    fn ktake(b: &[u8]) -> (r: Option<(u32, &[u8])>) {
        u32::take(b)
    }

    fn sorted<V>(m: &HashMap<u32, V>) -> (r: Vec<u32>) {
        sorted_keys(m)
    }

    proof fn lemma_order(s: Set<u32>) {
        lemma_ordered(s);
    }

    proof fn lemma_kdec(k: u32, rest: Seq<u8>) {
        u32::lemma_dec_enc(k, rest);
    }

    proof fn lemma_key_model() {
    }
}

impl Key for u8 {
    open spec fn order(s: Set<u8>) -> Seq<u8> {
        ordered(widen(s)).map_values(|x: u32| x as u8)
    }

    open spec fn kenc(k: u8) -> Seq<u8> {
        u8::enc(k)
    }

    open spec fn kdec(b: Seq<u8>) -> Option<(u8, Seq<u8>)> {
        u8::dec(b)
    }

    fn kput(&self, out: &mut Vec<u8>) {
        self.put(out);
    }

    fn ktake(b: &[u8]) -> (r: Option<(u8, &[u8])>) {
        match u8::take(b) {
            Some((k, t)) => Some((k, t)),
            None => None,
        }
    }

    fn sorted<V>(m: &HashMap<u8, V>) -> (r: Vec<u8>) {
        let wide = sorted_party_keys(m);
        let mut r: Vec<u8> = Vec::new();
        let mut i: usize = 0;
        while i < wide.len()
            invariant
                i <= wide@.len(),
                forall|j: int| 0 <= j < wide@.len() ==> wide@[j] < 256 && m@.contains_key(#[trigger] wide@[j] as u8),
                r@ == wide@.take(i as int).map_values(|x: u32| x as u8),
            decreases wide@.len() - i,
        {
            r.push(wide[i] as u8);
            assert(r@ =~= wide@.take(i + 1).map_values(|x: u32| x as u8));
            i = i + 1;
        }
        assert(wide@.take(i as int) =~= wide@);
        r
    }

    proof fn lemma_order(s: Set<u8>) {
        let q = ordered(widen(s));
        lemma_ordered(widen(s));
        let o = q.map_values(|x: u32| x as u8);
        assert forall|j: int| 0 <= j < q.len() implies #[trigger] q[j] < 256 by {
            assert(q.to_set().contains(q[j]));
        }
        assert forall|i: int, j: int| 0 <= i < o.len() && 0 <= j < o.len() && i != j implies o[i] != o[j] by {
            assert(q[i] != q[j]);
            assert(q[i] < 256 && q[j] < 256);
        }
        assert forall|k: u8| #[trigger] s.contains(k) implies o.contains(k) by {
            assert(widen(s).contains(k as u32));
            let j = choose|j: int| 0 <= j < q.len() && q[j] == k as u32;
            assert(o[j] == k);
        }
        assert forall|k: u8| #[trigger] o.contains(k) implies s.contains(k) by {
            let j = choose|j: int| 0 <= j < o.len() && o[j] == k;
            assert(q.to_set().contains(q[j]));
            let y = choose|y: u8| s.contains(y) && y as u32 == q[j];
        }
        assert(o.to_set() =~= s);
    }

    proof fn lemma_kdec(k: u8, rest: Seq<u8>) {
        u8::lemma_dec_enc(k, rest);
    }

    proof fn lemma_key_model() {
    }
}

impl Key for u16 {
    open spec fn order(s: Set<u16>) -> Seq<u16> {
        ordered(widen16(s)).map_values(|x: u32| x as u16)
    }

    open spec fn kenc(k: u16) -> Seq<u8> {
        u16::enc(k)
    }

    open spec fn kdec(b: Seq<u8>) -> Option<(u16, Seq<u8>)> {
        u16::dec(b)
    }

    fn kput(&self, out: &mut Vec<u8>) {
        self.put(out);
    }

    fn ktake(b: &[u8]) -> (r: Option<(u16, &[u8])>) {
        match u16::take(b) {
            Some((k, t)) => Some((k, t)),
            None => None,
        }
    }

    fn sorted<V>(m: &HashMap<u16, V>) -> (r: Vec<u16>) {
        let wide = sorted_area_keys(m);
        let mut r: Vec<u16> = Vec::new();
        let mut i: usize = 0;
        while i < wide.len()
            invariant
                i <= wide@.len(),
                forall|j: int| 0 <= j < wide@.len() ==> wide@[j] < 0x10000 && m@.contains_key(#[trigger] wide@[j] as u16),
                r@ == wide@.take(i as int).map_values(|x: u32| x as u16),
            decreases wide@.len() - i,
        {
            r.push(wide[i] as u16);
            assert(r@ =~= wide@.take(i + 1).map_values(|x: u32| x as u16));
            i = i + 1;
        }
        assert(wide@.take(i as int) =~= wide@);
        r
    }

    proof fn lemma_order(s: Set<u16>) {
        let q = ordered(widen16(s));
        lemma_ordered(widen16(s));
        let o = q.map_values(|x: u32| x as u16);
        assert forall|j: int| 0 <= j < q.len() implies #[trigger] q[j] < 0x10000 by {
            assert(q.to_set().contains(q[j]));
        }
        assert forall|i: int, j: int| 0 <= i < o.len() && 0 <= j < o.len() && i != j implies o[i] != o[j] by {
            assert(q[i] != q[j]);
            assert(q[i] < 0x10000 && q[j] < 0x10000);
        }
        assert forall|k: u16| #[trigger] s.contains(k) implies o.contains(k) by {
            assert(widen16(s).contains(k as u32));
            let j = choose|j: int| 0 <= j < q.len() && q[j] == k as u32;
            assert(o[j] == k);
        }
        assert forall|k: u16| #[trigger] o.contains(k) implies s.contains(k) by {
            let j = choose|j: int| 0 <= j < o.len() && o[j] == k;
            assert(q.to_set().contains(q[j]));
            let y = choose|y: u16| s.contains(y) && y as u32 == q[j];
        }
        assert(o.to_set() =~= s);
    }

    proof fn lemma_kdec(k: u16, rest: Seq<u8>) {
        u16::lemma_dec_enc(k, rest);
    }

    proof fn lemma_key_model() {
    }
}

/// The entries of the listed keys, one after another: key, then value.
pub open spec fn enc_entries<K: Key, V: Wire>(m: Map<K, V::W>, ks: Seq<K>) -> Seq<u8>
    decreases ks.len(),
{
    if ks.len() == 0 {
        seq![]
    } else {
        enc_entries::<K, V>(m, ks.drop_last()) + K::kenc(ks.last()) + V::enc(m[ks.last()])
    }
}

/// Reads `n` more entries into `acc`; a key read twice is an error.
pub open spec fn dec_entries<K: Key, V: Wire>(b: Seq<u8>, n: nat, acc: Map<K, V::W>) -> Option<(Map<K, V::W>, Seq<u8>)>
    decreases n,
{
    if n == 0 {
        Some((acc, b))
    } else {
        match K::kdec(b) {
            Some((k, r)) => if acc.contains_key(k) {
                None
            } else {
                match V::dec(r) {
                    Some((v, r2)) => dec_entries::<K, V>(r2, (n - 1) as nat, acc.insert(k, v)),
                    None => None,
                }
            },
            None => None,
        }
    }
}

/// The part of `m` at the listed keys.
pub open spec fn on_keys<K, W>(m: Map<K, W>, q: Seq<K>) -> Map<K, W> {
    Map::new(|k: K| q.contains(k), |k: K| m[k])
}

proof fn lemma_enc_entries_front<K: Key, V: Wire>(m: Map<K, V::W>, ks: Seq<K>)
    requires
        ks.len() > 0,
    ensures
        enc_entries::<K, V>(m, ks) == K::kenc(ks[0]) + V::enc(m[ks[0]]) + enc_entries::<K, V>(m, ks.drop_first()),
    decreases ks.len(),
{
    if ks.len() == 1 {
        assert(ks.drop_last() =~= Seq::<K>::empty());
        assert(ks.drop_first() =~= Seq::<K>::empty());
        assert(enc_entries::<K, V>(m, ks.drop_last()) == Seq::<u8>::empty());
        assert(enc_entries::<K, V>(m, ks.drop_first()) == Seq::<u8>::empty());
        assert(ks.last() == ks[0]);
        assert(enc_entries::<K, V>(m, ks) =~= K::kenc(ks[0]) + V::enc(m[ks[0]]) + enc_entries::<K, V>(m, ks.drop_first()));
    } else {
        lemma_enc_entries_front::<K, V>(m, ks.drop_last());
        assert(ks.drop_last().drop_first() =~= ks.drop_first().drop_last());
        assert(ks.drop_first().last() == ks.last());
        assert(enc_entries::<K, V>(m, ks) =~= K::kenc(ks[0]) + V::enc(m[ks[0]]) + enc_entries::<K, V>(m, ks.drop_first()));
    }
}

proof fn lemma_dec_entries<K: Key, V: Wire>(m: Map<K, V::W>, ks: Seq<K>, i: int, rest: Seq<u8>)
    requires
        0 <= i <= ks.len(),
        ks.no_duplicates(),
        forall|j: int| 0 <= j < ks.len() ==> V::fits(m[#[trigger] ks[j]]),
    ensures
        dec_entries::<K, V>(enc_entries::<K, V>(m, ks.skip(i)) + rest, (ks.len() - i) as nat, on_keys(m, ks.take(i)))
            == Some((on_keys(m, ks), rest)),
    decreases ks.len() - i,
{
    if i == ks.len() {
        assert(ks.skip(i) =~= Seq::<K>::empty());
        assert(enc_entries::<K, V>(m, ks.skip(i)) + rest =~= rest);
        assert(ks.take(i) =~= ks);
    } else {
        let k = ks[i];
        lemma_enc_entries_front::<K, V>(m, ks.skip(i));
        assert(ks.skip(i).drop_first() =~= ks.skip(i + 1));
        assert(ks.skip(i)[0] == k);
        let tail = enc_entries::<K, V>(m, ks.skip(i + 1)) + rest;
        let b = enc_entries::<K, V>(m, ks.skip(i)) + rest;
        assert(b =~= K::kenc(k) + (V::enc(m[k]) + tail));
        K::lemma_kdec(k, V::enc(m[k]) + tail);
        V::lemma_dec_enc(m[k], tail);
        assert(!on_keys(m, ks.take(i)).contains_key(k)) by {
            if ks.take(i).contains(k) {
                let j = choose|j: int| 0 <= j < i && ks.take(i)[j] == k;
                assert(ks[j] == ks[i]);
            }
        }
        assert(on_keys(m, ks.take(i)).insert(k, m[k]) =~= on_keys(m, ks.take(i + 1))) by {
            assert(ks.take(i + 1) =~= ks.take(i).push(k));
            crate::order::lemma_push_to_set(ks.take(i), k);
            assert forall|x: K| ks.take(i + 1).contains(x) <==> (ks.take(i).contains(x) || x == k) by {
                assert(ks.take(i + 1).to_set().contains(x) == ks.take(i).to_set().insert(k).contains(x));
            }
        }
        lemma_dec_entries::<K, V>(m, ks, i + 1, rest);
    }
}

/// A map is a map of its entries, keys in the order of `Key::order`.
impl<K: Key, V: Wire> Wire for HashMap<K, V> {
    type W = Map<K, V::W>;

    open spec fn wv(&self) -> Map<K, V::W> {
        self@.map_values(|v: V| v.wv())
    }

    open spec fn fits(w: Map<K, V::W>) -> bool {
        &&& K::order(w.dom()).len() <= u32::MAX
        &&& forall|k: K| #[trigger] w.dom().contains(k) ==> V::fits(w[k])
    }

    open spec fn enc(w: Map<K, V::W>) -> Seq<u8> {
        enc_map_len(K::order(w.dom()).len() as u32) + enc_entries::<K, V>(w, K::order(w.dom()))
    }

    open spec fn dec(b: Seq<u8>) -> Option<(Map<K, V::W>, Seq<u8>)> {
        match read_map_len(b) {
            Some((n, r)) => dec_entries::<K, V>(r, n as nat, Map::empty()),
            None => None,
        }
    }

    fn fits_now(&self) -> (r: bool) {
        proof {
            K::lemma_key_model();
            K::lemma_order(self@.dom());
        }
        let keys = K::sorted(self);
        assert(self.wv().dom() =~= self@.dom());
        if keys.len() > 0xffff_ffff {
            return false;
        }
        let mut i: usize = 0;
        while i < keys.len()
            invariant
                i <= keys@.len(),
                vstd::std_specs::hash::obeys_key_model::<K>(),
                keys@.to_set() == self@.dom(),
                keys@.len() <= u32::MAX,
                keys@ == K::order(self@.dom()),
                forall|j: int| 0 <= j < i ==> V::fits(self.wv()[#[trigger] keys@[j]]),
            decreases keys@.len() - i,
        {
            let k = keys[i];
            assert(self@.contains_key(k)) by {
                assert(keys@[i as int] == k);
                assert(keys@.to_set().contains(k));
            }
            let v = self.get(&k).unwrap();
            if !v.fits_now() {
                assert(self.wv()[k] == v.wv());
                assert(self.wv().dom().contains(k));
                return false;
            }
            i = i + 1;
        }
        assert(self.wv().dom() =~= self@.dom());
        assert forall|k: K| #[trigger] self.wv().dom().contains(k) implies V::fits(self.wv()[k]) by {
            assert(keys@.to_set().contains(k));
            let j = choose|j: int| 0 <= j < keys@.len() && keys@[j] == k;
        }
        true
    }

    fn put(&self, out: &mut Vec<u8>) {
        proof {
            K::lemma_key_model();
            K::lemma_order(self@.dom());
        }
        let ghost w = self.wv();
        let keys = K::sorted(self);
        assert(w.dom() =~= self@.dom());
        put_map_len(out, keys.len() as u32);
        let ghost start = out@;
        let mut i: usize = 0;
        assert(keys@.take(0) =~= Seq::<K>::empty());
        while i < keys.len()
            invariant
                i <= keys@.len(),
                vstd::std_specs::hash::obeys_key_model::<K>(),
                w == self.wv(),
                keys@ == K::order(self@.dom()),
                keys@.to_set() == self@.dom(),
                Self::fits(w),
                w.dom() == self@.dom(),
                out@ == start + enc_entries::<K, V>(w, keys@.take(i as int)),
            decreases keys@.len() - i,
        {
            let k = keys[i];
            assert(self@.contains_key(k)) by {
                assert(keys@[i as int] == k);
                assert(keys@.to_set().contains(k));
            }
            k.kput(out);
            let v = self.get(&k).unwrap();
            assert(w[k] == v.wv());
            assert(w.dom().contains(k));
            v.put(out);
            assert(keys@.take(i + 1).drop_last() =~= keys@.take(i as int));
            assert(keys@.take(i + 1).last() == k);
            assert(out@ =~= start + enc_entries::<K, V>(w, keys@.take(i + 1)));
            i = i + 1;
        }
        assert(keys@.take(i as int) =~= keys@);
        assert(final(out)@ =~= old(out)@ + Self::enc(self.wv()));
    }

    fn take(b: &[u8]) -> (r: Option<(HashMap<K, V>, &[u8])>) {
        proof {
            K::lemma_key_model();
        }
        let (n, r) = match take_map_len(b) {
            Some(x) => x,
            None => {
                return None;
            },
        };
        let mut map: HashMap<K, V> = HashMap::new();
        let mut cur = r;
        let mut j: u32 = 0;
        assert(map@.map_values(|v: V| v.wv()) =~= Map::<K, V::W>::empty());
        while j < n
            invariant
                j <= n,
                vstd::std_specs::hash::obeys_key_model::<K>(),
                Self::dec(b@) == dec_entries::<K, V>(cur@, (n - j) as nat, map.wv()),
            decreases n - j,
        {
            let (k, r1) = match K::ktake(cur) {
                Some(x) => x,
                None => {
                    return None;
                },
            };
            if map.contains_key(&k) {
                return None;
            }
            let (v, r2) = match V::take(r1) {
                Some(x) => x,
                None => {
                    return None;
                },
            };
            let ghost before = map.wv();
            map.insert(k, v);
            assert(map.wv() =~= before.insert(k, v.wv()));
            cur = r2;
            j = j + 1;
        }
        Some((map, cur))
    }

    proof fn lemma_dec_enc(w: Map<K, V::W>, rest: Seq<u8>) {
        let ks = K::order(w.dom());
        K::lemma_order(w.dom());
        assert(Self::enc(w) + rest =~= enc_map_len(ks.len() as u32) + (enc_entries::<K, V>(w, ks) + rest));
        lemma_read_map_len(ks.len() as u32, enc_entries::<K, V>(w, ks) + rest);
        assert forall|j: int| 0 <= j < ks.len() implies V::fits(w[#[trigger] ks[j]]) by {
            assert(ks.to_set().contains(ks[j]));
        }
        lemma_dec_entries::<K, V>(w, ks, 0, rest);
        assert(ks.skip(0) =~= ks);
        assert(on_keys(w, ks.take(0)) =~= Map::<K, V::W>::empty());
        assert(on_keys(w, ks) =~= w) by {
            assert forall|k: K| ks.contains(k) <==> w.dom().contains(k) by {
                assert(ks.to_set().contains(k) == w.dom().contains(k));
            }
        }
    }
}


/// The position of a party category in its declaration order.
pub open spec fn party_type_index(t: PartyType) -> u32 {
    match t {
        PartyType::Left => 0,
        PartyType::SocialDemocratic => 1,
        PartyType::Green => 2,
        PartyType::Liberal => 3,
        PartyType::Other => 4,
        PartyType::Conservative => 5,
        PartyType::Fascist => 6,
    }
}

/// The party category at a position of the declaration order.
pub open spec fn party_type_at(i: u32) -> Option<PartyType> {
    if i == 0 {
        Some(PartyType::Left)
    } else if i == 1 {
        Some(PartyType::SocialDemocratic)
    } else if i == 2 {
        Some(PartyType::Green)
    } else if i == 3 {
        Some(PartyType::Liberal)
    } else if i == 4 {
        Some(PartyType::Other)
    } else if i == 5 {
        Some(PartyType::Conservative)
    } else if i == 6 {
        Some(PartyType::Fascist)
    } else {
        None
    }
}

/// A party category is its position in the declaration order.
impl Wire for PartyType {
    type W = PartyType;

    open spec fn wv(&self) -> PartyType {
        *self
    }

    open spec fn fits(w: PartyType) -> bool {
        true
    }

    open spec fn enc(w: PartyType) -> Seq<u8> {
        enc_u32(party_type_index(w))
    }

    open spec fn dec(b: Seq<u8>) -> Option<(PartyType, Seq<u8>)> {
        match read_u32(b) {
            Some((i, r)) => match party_type_at(i) {
                Some(t) => Some((t, r)),
                None => None,
            },
            None => None,
        }
    }

    fn fits_now(&self) -> (r: bool) {
        true
    }

    fn put(&self, out: &mut Vec<u8>) {
        let i: u32 = match self {
            PartyType::Left => 0,
            PartyType::SocialDemocratic => 1,
            PartyType::Green => 2,
            PartyType::Liberal => 3,
            PartyType::Other => 4,
            PartyType::Conservative => 5,
            PartyType::Fascist => 6,
        };
        put_u32(out, i);
    }

    fn take(b: &[u8]) -> (r: Option<(PartyType, &[u8])>) {
        let (i, r) = match take_u32(b) {
            Some(x) => x,
            None => {
                return None;
            },
        };
        let t = if i == 0 {
            PartyType::Left
        } else if i == 1 {
            PartyType::SocialDemocratic
        } else if i == 2 {
            PartyType::Green
        } else if i == 3 {
            PartyType::Liberal
        } else if i == 4 {
            PartyType::Other
        } else if i == 5 {
            PartyType::Conservative
        } else if i == 6 {
            PartyType::Fascist
        } else {
            return None;
        };
        Some((t, r))
    }

    proof fn lemma_dec_enc(w: PartyType, rest: Seq<u8>) {
        lemma_read_u32(party_type_index(w), rest);
    }
}

/// A list source is 0 for the area list and 1 for the district list.
impl Wire for PartyListSource {
    type W = PartyListSource;

    open spec fn wv(&self) -> PartyListSource {
        *self
    }

    open spec fn fits(w: PartyListSource) -> bool {
        true
    }

    open spec fn enc(w: PartyListSource) -> Seq<u8> {
        enc_u32(
            match w {
                PartyListSource::Area => 0,
                PartyListSource::District => 1,
            },
        )
    }

    open spec fn dec(b: Seq<u8>) -> Option<(PartyListSource, Seq<u8>)> {
        match read_u32(b) {
            Some((i, r)) => if i == 0 {
                Some((PartyListSource::Area, r))
            } else if i == 1 {
                Some((PartyListSource::District, r))
            } else {
                None
            },
            None => None,
        }
    }

    fn fits_now(&self) -> (r: bool) {
        true
    }

    fn put(&self, out: &mut Vec<u8>) {
        match self {
            PartyListSource::Area => put_u32(out, 0),
            PartyListSource::District => put_u32(out, 1),
        }
    }

    fn take(b: &[u8]) -> (r: Option<(PartyListSource, &[u8])>) {
        match take_u32(b) {
            Some((i, r)) => if i == 0 {
                Some((PartyListSource::Area, r))
            } else if i == 1 {
                Some((PartyListSource::District, r))
            } else {
                None
            },
            None => None,
        }
    }

    proof fn lemma_dec_enc(w: PartyListSource, rest: Seq<u8>) {
        match w {
            PartyListSource::Area => lemma_read_u32(0, rest),
            PartyListSource::District => lemma_read_u32(1, rest),
        }
    }
}

/// A date is the array [year, month, day].
impl Wire for Date {
    type W = (<u32 as Wire>::W, <u8 as Wire>::W, <u8 as Wire>::W);

    open spec fn wv(&self) -> Self::W {
        (self.year.wv(), self.month.wv(), self.day.wv())
    }

    open spec fn fits(w: Self::W) -> bool {
        <u32 as Wire>::fits(w.0) && <u8 as Wire>::fits(w.1) && <u8 as Wire>::fits(w.2)
    }

    open spec fn enc(w: Self::W) -> Seq<u8> {
        enc_array_len(3) + <u32 as Wire>::enc(w.0) + <u8 as Wire>::enc(w.1) + <u8 as Wire>::enc(w.2)
    }

    open spec fn dec(b: Seq<u8>) -> Option<(Self::W, Seq<u8>)> {
        match read_array_len(b) {
            Some((n, r0)) => if n != 3 {
                None
            } else {
                match <u32 as Wire>::dec(r0) {
                    Some((x0, r1)) => match <u8 as Wire>::dec(r1) {
                        Some((x1, r2)) => match <u8 as Wire>::dec(r2) {
                            Some((x2, r3)) => Some(((x0, x1, x2), r3)),
                            None => None,
                        },
                        None => None,
                    },
                    None => None,
                }
            },
            None => None,
        }
    }

    fn fits_now(&self) -> (r: bool) {
        self.year.fits_now() && self.month.fits_now() && self.day.fits_now()
    }

    fn put(&self, out: &mut Vec<u8>) {
        put_array_len(out, 3);
        self.year.put(out);
        self.month.put(out);
        self.day.put(out);
        assert(final(out)@ =~= old(out)@ + Self::enc(self.wv()));
    }

    fn take(b: &[u8]) -> (r: Option<(Date, &[u8])>) {
        let (n, r0) = match take_array_len(b) {
            Some(x) => x,
            None => {
                return None;
            },
        };
        if n != 3 {
            return None;
        }
        let (x0, r1) = match <u32 as Wire>::take(r0) {
            Some(x) => x,
            None => {
                return None;
            },
        };
        let (x1, r2) = match <u8 as Wire>::take(r1) {
            Some(x) => x,
            None => {
                return None;
            },
        };
        let (x2, r3) = match <u8 as Wire>::take(r2) {
            Some(x) => x,
            None => {
                return None;
            },
        };
        Some((Date { year: x0, month: x1, day: x2 }, r3))
    }

    proof fn lemma_dec_enc(w: Self::W, rest: Seq<u8>) {
        let t3 = rest;
        let t2 = <u8 as Wire>::enc(w.2) + t3;
        let t1 = <u8 as Wire>::enc(w.1) + t2;
        let t0 = <u32 as Wire>::enc(w.0) + t1;
        assert(Self::enc(w) + rest =~= enc_array_len(3) + t0);
        lemma_read_array_len(3, t0);
        <u32 as Wire>::lemma_dec_enc(w.0, t1);
        <u8 as Wire>::lemma_dec_enc(w.1, t2);
        <u8 as Wire>::lemma_dec_enc(w.2, t3);
    }
}

/// A party is the array [name, category, color].
impl Wire for Party {
    type W = (<String as Wire>::W, <PartyType as Wire>::W, <u32 as Wire>::W);

    open spec fn wv(&self) -> Self::W {
        (self.name.wv(), self.type_.wv(), self.color.wv())
    }

    open spec fn fits(w: Self::W) -> bool {
        <String as Wire>::fits(w.0) && <PartyType as Wire>::fits(w.1) && <u32 as Wire>::fits(w.2)
    }

    open spec fn enc(w: Self::W) -> Seq<u8> {
        enc_array_len(3) + <String as Wire>::enc(w.0) + <PartyType as Wire>::enc(w.1) + <u32 as Wire>::enc(w.2)
    }

    open spec fn dec(b: Seq<u8>) -> Option<(Self::W, Seq<u8>)> {
        match read_array_len(b) {
            Some((n, r0)) => if n != 3 {
                None
            } else {
                match <String as Wire>::dec(r0) {
                    Some((x0, r1)) => match <PartyType as Wire>::dec(r1) {
                        Some((x1, r2)) => match <u32 as Wire>::dec(r2) {
                            Some((x2, r3)) => Some(((x0, x1, x2), r3)),
                            None => None,
                        },
                        None => None,
                    },
                    None => None,
                }
            },
            None => None,
        }
    }

    fn fits_now(&self) -> (r: bool) {
        self.name.fits_now() && self.type_.fits_now() && self.color.fits_now()
    }

    fn put(&self, out: &mut Vec<u8>) {
        put_array_len(out, 3);
        self.name.put(out);
        self.type_.put(out);
        self.color.put(out);
        assert(final(out)@ =~= old(out)@ + Self::enc(self.wv()));
    }

    fn take(b: &[u8]) -> (r: Option<(Party, &[u8])>) {
        let (n, r0) = match take_array_len(b) {
            Some(x) => x,
            None => {
                return None;
            },
        };
        if n != 3 {
            return None;
        }
        let (x0, r1) = match <String as Wire>::take(r0) {
            Some(x) => x,
            None => {
                return None;
            },
        };
        let (x1, r2) = match <PartyType as Wire>::take(r1) {
            Some(x) => x,
            None => {
                return None;
            },
        };
        let (x2, r3) = match <u32 as Wire>::take(r2) {
            Some(x) => x,
            None => {
                return None;
            },
        };
        Some((Party { name: x0, type_: x1, color: x2 }, r3))
    }

    proof fn lemma_dec_enc(w: Self::W, rest: Seq<u8>) {
        let t3 = rest;
        let t2 = <u32 as Wire>::enc(w.2) + t3;
        let t1 = <PartyType as Wire>::enc(w.1) + t2;
        let t0 = <String as Wire>::enc(w.0) + t1;
        assert(Self::enc(w) + rest =~= enc_array_len(3) + t0);
        lemma_read_array_len(3, t0);
        <String as Wire>::lemma_dec_enc(w.0, t1);
        <PartyType as Wire>::lemma_dec_enc(w.1, t2);
        <u32 as Wire>::lemma_dec_enc(w.2, t3);
    }
}

/// A candidate is the array [name?, party?].
impl Wire for Candidate {
    type W = (<Option<String> as Wire>::W, <Option<PartyID> as Wire>::W);

    open spec fn wv(&self) -> Self::W {
        (self.name.wv(), self.party.wv())
    }

    open spec fn fits(w: Self::W) -> bool {
        <Option<String> as Wire>::fits(w.0) && <Option<PartyID> as Wire>::fits(w.1)
    }

    open spec fn enc(w: Self::W) -> Seq<u8> {
        enc_array_len(2) + <Option<String> as Wire>::enc(w.0) + <Option<PartyID> as Wire>::enc(w.1)
    }

    open spec fn dec(b: Seq<u8>) -> Option<(Self::W, Seq<u8>)> {
        match read_array_len(b) {
            Some((n, r0)) => if n != 2 {
                None
            } else {
                match <Option<String> as Wire>::dec(r0) {
                    Some((x0, r1)) => match <Option<PartyID> as Wire>::dec(r1) {
                        Some((x1, r2)) => Some(((x0, x1), r2)),
                        None => None,
                    },
                    None => None,
                }
            },
            None => None,
        }
    }

    fn fits_now(&self) -> (r: bool) {
        self.name.fits_now() && self.party.fits_now()
    }

    fn put(&self, out: &mut Vec<u8>) {
        put_array_len(out, 2);
        self.name.put(out);
        self.party.put(out);
        assert(final(out)@ =~= old(out)@ + Self::enc(self.wv()));
    }

    fn take(b: &[u8]) -> (r: Option<(Candidate, &[u8])>) {
        let (n, r0) = match take_array_len(b) {
            Some(x) => x,
            None => {
                return None;
            },
        };
        if n != 2 {
            return None;
        }
        let (x0, r1) = match <Option<String> as Wire>::take(r0) {
            Some(x) => x,
            None => {
                return None;
            },
        };
        let (x1, r2) = match <Option<PartyID> as Wire>::take(r1) {
            Some(x) => x,
            None => {
                return None;
            },
        };
        Some((Candidate { name: x0, party: x1 }, r2))
    }

    proof fn lemma_dec_enc(w: Self::W, rest: Seq<u8>) {
        let t2 = rest;
        let t1 = <Option<PartyID> as Wire>::enc(w.1) + t2;
        let t0 = <Option<String> as Wire>::enc(w.0) + t1;
        assert(Self::enc(w) + rest =~= enc_array_len(2) + t0);
        lemma_read_array_len(2, t0);
        <Option<String> as Wire>::lemma_dec_enc(w.0, t1);
        <Option<PartyID> as Wire>::lemma_dec_enc(w.1, t2);
    }
}

/// A district is the array [name, seats, area, candidates].
impl Wire for District {
    type W = (<String as Wire>::W, <u8 as Wire>::W, <AreaID as Wire>::W, <HashSet<CandidateID> as Wire>::W);

    open spec fn wv(&self) -> Self::W {
        (self.name.wv(), self.seats.wv(), self.area.wv(), self.candidates.wv())
    }

    open spec fn fits(w: Self::W) -> bool {
        <String as Wire>::fits(w.0) && <u8 as Wire>::fits(w.1) && <AreaID as Wire>::fits(w.2) && <HashSet<CandidateID> as Wire>::fits(w.3)
    }

    open spec fn enc(w: Self::W) -> Seq<u8> {
        enc_array_len(4) + <String as Wire>::enc(w.0) + <u8 as Wire>::enc(w.1) + <AreaID as Wire>::enc(w.2) + <HashSet<CandidateID> as Wire>::enc(w.3)
    }

    open spec fn dec(b: Seq<u8>) -> Option<(Self::W, Seq<u8>)> {
        match read_array_len(b) {
            Some((n, r0)) => if n != 4 {
                None
            } else {
                match <String as Wire>::dec(r0) {
                    Some((x0, r1)) => match <u8 as Wire>::dec(r1) {
                        Some((x1, r2)) => match <AreaID as Wire>::dec(r2) {
                            Some((x2, r3)) => match <HashSet<CandidateID> as Wire>::dec(r3) {
                                Some((x3, r4)) => Some(((x0, x1, x2, x3), r4)),
                                None => None,
                            },
                            None => None,
                        },
                        None => None,
                    },
                    None => None,
                }
            },
            None => None,
        }
    }

    fn fits_now(&self) -> (r: bool) {
        self.name.fits_now() && self.seats.fits_now() && self.area.fits_now() && self.candidates.fits_now()
    }

    fn put(&self, out: &mut Vec<u8>) {
        put_array_len(out, 4);
        self.name.put(out);
        self.seats.put(out);
        self.area.put(out);
        self.candidates.put(out);
        assert(final(out)@ =~= old(out)@ + Self::enc(self.wv()));
    }

    fn take(b: &[u8]) -> (r: Option<(District, &[u8])>) {
        let (n, r0) = match take_array_len(b) {
            Some(x) => x,
            None => {
                return None;
            },
        };
        if n != 4 {
            return None;
        }
        let (x0, r1) = match <String as Wire>::take(r0) {
            Some(x) => x,
            None => {
                return None;
            },
        };
        let (x1, r2) = match <u8 as Wire>::take(r1) {
            Some(x) => x,
            None => {
                return None;
            },
        };
        let (x2, r3) = match <AreaID as Wire>::take(r2) {
            Some(x) => x,
            None => {
                return None;
            },
        };
        let (x3, r4) = match <HashSet<CandidateID> as Wire>::take(r3) {
            Some(x) => x,
            None => {
                return None;
            },
        };
        Some((District { name: x0, seats: x1, area: x2, candidates: x3 }, r4))
    }

    proof fn lemma_dec_enc(w: Self::W, rest: Seq<u8>) {
        let t4 = rest;
        let t3 = <HashSet<CandidateID> as Wire>::enc(w.3) + t4;
        let t2 = <AreaID as Wire>::enc(w.2) + t3;
        let t1 = <u8 as Wire>::enc(w.1) + t2;
        let t0 = <String as Wire>::enc(w.0) + t1;
        assert(Self::enc(w) + rest =~= enc_array_len(4) + t0);
        lemma_read_array_len(4, t0);
        <String as Wire>::lemma_dec_enc(w.0, t1);
        <u8 as Wire>::lemma_dec_enc(w.1, t2);
        <AreaID as Wire>::lemma_dec_enc(w.2, t3);
        <HashSet<CandidateID> as Wire>::lemma_dec_enc(w.3, t4);
    }
}

/// An area is the array [name, districts, candidates, seats].
impl Wire for Area {
    type W = (<String as Wire>::W, <HashSet<DistrictID> as Wire>::W, <HashSet<CandidateID> as Wire>::W, <SeatCount as Wire>::W);

    open spec fn wv(&self) -> Self::W {
        (self.name.wv(), self.districts.wv(), self.candidates.wv(), self.seats.wv())
    }

    open spec fn fits(w: Self::W) -> bool {
        <String as Wire>::fits(w.0) && <HashSet<DistrictID> as Wire>::fits(w.1) && <HashSet<CandidateID> as Wire>::fits(w.2) && <SeatCount as Wire>::fits(w.3)
    }

    open spec fn enc(w: Self::W) -> Seq<u8> {
        enc_array_len(4) + <String as Wire>::enc(w.0) + <HashSet<DistrictID> as Wire>::enc(w.1) + <HashSet<CandidateID> as Wire>::enc(w.2) + <SeatCount as Wire>::enc(w.3)
    }

    open spec fn dec(b: Seq<u8>) -> Option<(Self::W, Seq<u8>)> {
        match read_array_len(b) {
            Some((n, r0)) => if n != 4 {
                None
            } else {
                match <String as Wire>::dec(r0) {
                    Some((x0, r1)) => match <HashSet<DistrictID> as Wire>::dec(r1) {
                        Some((x1, r2)) => match <HashSet<CandidateID> as Wire>::dec(r2) {
                            Some((x2, r3)) => match <SeatCount as Wire>::dec(r3) {
                                Some((x3, r4)) => Some(((x0, x1, x2, x3), r4)),
                                None => None,
                            },
                            None => None,
                        },
                        None => None,
                    },
                    None => None,
                }
            },
            None => None,
        }
    }

    fn fits_now(&self) -> (r: bool) {
        self.name.fits_now() && self.districts.fits_now() && self.candidates.fits_now() && self.seats.fits_now()
    }

    fn put(&self, out: &mut Vec<u8>) {
        put_array_len(out, 4);
        self.name.put(out);
        self.districts.put(out);
        self.candidates.put(out);
        self.seats.put(out);
        assert(final(out)@ =~= old(out)@ + Self::enc(self.wv()));
    }

    fn take(b: &[u8]) -> (r: Option<(Area, &[u8])>) {
        let (n, r0) = match take_array_len(b) {
            Some(x) => x,
            None => {
                return None;
            },
        };
        if n != 4 {
            return None;
        }
        let (x0, r1) = match <String as Wire>::take(r0) {
            Some(x) => x,
            None => {
                return None;
            },
        };
        let (x1, r2) = match <HashSet<DistrictID> as Wire>::take(r1) {
            Some(x) => x,
            None => {
                return None;
            },
        };
        let (x2, r3) = match <HashSet<CandidateID> as Wire>::take(r2) {
            Some(x) => x,
            None => {
                return None;
            },
        };
        let (x3, r4) = match <SeatCount as Wire>::take(r3) {
            Some(x) => x,
            None => {
                return None;
            },
        };
        Some((Area { name: x0, districts: x1, candidates: x2, seats: x3 }, r4))
    }

    proof fn lemma_dec_enc(w: Self::W, rest: Seq<u8>) {
        let t4 = rest;
        let t3 = <SeatCount as Wire>::enc(w.3) + t4;
        let t2 = <HashSet<CandidateID> as Wire>::enc(w.2) + t3;
        let t1 = <HashSet<DistrictID> as Wire>::enc(w.1) + t2;
        let t0 = <String as Wire>::enc(w.0) + t1;
        assert(Self::enc(w) + rest =~= enc_array_len(4) + t0);
        lemma_read_array_len(4, t0);
        <String as Wire>::lemma_dec_enc(w.0, t1);
        <HashSet<DistrictID> as Wire>::lemma_dec_enc(w.1, t2);
        <HashSet<CandidateID> as Wire>::lemma_dec_enc(w.2, t3);
        <SeatCount as Wire>::lemma_dec_enc(w.3, t4);
    }
}

/// A district's results are the array [party votes, list source, candidate votes].
impl Wire for DistrictResults {
    type W = (<HashMap<PartyID, u32> as Wire>::W, <PartyListSource as Wire>::W, <HashMap<CandidateID, u32> as Wire>::W);

    open spec fn wv(&self) -> Self::W {
        (self.party_votes.wv(), self.party_list_source.wv(), self.candidate_votes.wv())
    }

    open spec fn fits(w: Self::W) -> bool {
        <HashMap<PartyID, u32> as Wire>::fits(w.0) && <PartyListSource as Wire>::fits(w.1) && <HashMap<CandidateID, u32> as Wire>::fits(w.2)
    }

    open spec fn enc(w: Self::W) -> Seq<u8> {
        enc_array_len(3) + <HashMap<PartyID, u32> as Wire>::enc(w.0) + <PartyListSource as Wire>::enc(w.1) + <HashMap<CandidateID, u32> as Wire>::enc(w.2)
    }

    open spec fn dec(b: Seq<u8>) -> Option<(Self::W, Seq<u8>)> {
        match read_array_len(b) {
            Some((n, r0)) => if n != 3 {
                None
            } else {
                match <HashMap<PartyID, u32> as Wire>::dec(r0) {
                    Some((x0, r1)) => match <PartyListSource as Wire>::dec(r1) {
                        Some((x1, r2)) => match <HashMap<CandidateID, u32> as Wire>::dec(r2) {
                            Some((x2, r3)) => Some(((x0, x1, x2), r3)),
                            None => None,
                        },
                        None => None,
                    },
                    None => None,
                }
            },
            None => None,
        }
    }

    fn fits_now(&self) -> (r: bool) {
        self.party_votes.fits_now() && self.party_list_source.fits_now() && self.candidate_votes.fits_now()
    }

    fn put(&self, out: &mut Vec<u8>) {
        put_array_len(out, 3);
        self.party_votes.put(out);
        self.party_list_source.put(out);
        self.candidate_votes.put(out);
        assert(final(out)@ =~= old(out)@ + Self::enc(self.wv()));
    }

    fn take(b: &[u8]) -> (r: Option<(DistrictResults, &[u8])>) {
        let (n, r0) = match take_array_len(b) {
            Some(x) => x,
            None => {
                return None;
            },
        };
        if n != 3 {
            return None;
        }
        let (x0, r1) = match <HashMap<PartyID, u32> as Wire>::take(r0) {
            Some(x) => x,
            None => {
                return None;
            },
        };
        let (x1, r2) = match <PartyListSource as Wire>::take(r1) {
            Some(x) => x,
            None => {
                return None;
            },
        };
        let (x2, r3) = match <HashMap<CandidateID, u32> as Wire>::take(r2) {
            Some(x) => x,
            None => {
                return None;
            },
        };
        Some((DistrictResults { party_votes: x0, party_list_source: x1, candidate_votes: x2 }, r3))
    }

    proof fn lemma_dec_enc(w: Self::W, rest: Seq<u8>) {
        let t3 = rest;
        let t2 = <HashMap<CandidateID, u32> as Wire>::enc(w.2) + t3;
        let t1 = <PartyListSource as Wire>::enc(w.1) + t2;
        let t0 = <HashMap<PartyID, u32> as Wire>::enc(w.0) + t1;
        assert(Self::enc(w) + rest =~= enc_array_len(3) + t0);
        lemma_read_array_len(3, t0);
        <HashMap<PartyID, u32> as Wire>::lemma_dec_enc(w.0, t1);
        <PartyListSource as Wire>::lemma_dec_enc(w.1, t2);
        <HashMap<CandidateID, u32> as Wire>::lemma_dec_enc(w.2, t3);
    }
}

/// A grouping is the array [units].
impl Wire for Grouping {
    type W = (<Vec<HashSet<DistrictID>> as Wire>::W,);

    open spec fn wv(&self) -> Self::W {
        (self.0.wv(),)
    }

    open spec fn fits(w: Self::W) -> bool {
        <Vec<HashSet<DistrictID>> as Wire>::fits(w.0)
    }

    open spec fn enc(w: Self::W) -> Seq<u8> {
        enc_array_len(1) + <Vec<HashSet<DistrictID>> as Wire>::enc(w.0)
    }

    open spec fn dec(b: Seq<u8>) -> Option<(Self::W, Seq<u8>)> {
        match read_array_len(b) {
            Some((n, r0)) => if n != 1 {
                None
            } else {
                match <Vec<HashSet<DistrictID>> as Wire>::dec(r0) {
                    Some((x0, r1)) => Some(((x0,), r1)),
                    None => None,
                }
            },
            None => None,
        }
    }

    fn fits_now(&self) -> (r: bool) {
        self.0.fits_now()
    }

    fn put(&self, out: &mut Vec<u8>) {
        put_array_len(out, 1);
        self.0.put(out);
        assert(final(out)@ =~= old(out)@ + Self::enc(self.wv()));
    }

    fn take(b: &[u8]) -> (r: Option<(Grouping, &[u8])>) {
        let (n, r0) = match take_array_len(b) {
            Some(x) => x,
            None => {
                return None;
            },
        };
        if n != 1 {
            return None;
        }
        let (x0, r1) = match <Vec<HashSet<DistrictID>> as Wire>::take(r0) {
            Some(x) => x,
            None => {
                return None;
            },
        };
        Some((Grouping(x0), r1))
    }

    proof fn lemma_dec_enc(w: Self::W, rest: Seq<u8>) {
        let t1 = rest;
        let t0 = <Vec<HashSet<DistrictID>> as Wire>::enc(w.0) + t1;
        assert(Self::enc(w) + rest =~= enc_array_len(1) + t0);
        lemma_read_array_len(1, t0);
        <Vec<HashSet<DistrictID>> as Wire>::lemma_dec_enc(w.0, t1);
    }
}

/// A stage is the array [districts, candidates, parties, areas].
impl Wire for ElectionStage {
    type W = (<HashMap<DistrictID, District> as Wire>::W, <HashMap<CandidateID, Candidate> as Wire>::W, <HashMap<PartyID, Party> as Wire>::W, <HashMap<AreaID, Area> as Wire>::W);

    open spec fn wv(&self) -> Self::W {
        (self.districts.wv(), self.candidates.wv(), self.parties.wv(), self.areas.wv())
    }

    open spec fn fits(w: Self::W) -> bool {
        <HashMap<DistrictID, District> as Wire>::fits(w.0) && <HashMap<CandidateID, Candidate> as Wire>::fits(w.1) && <HashMap<PartyID, Party> as Wire>::fits(w.2) && <HashMap<AreaID, Area> as Wire>::fits(w.3)
    }

    open spec fn enc(w: Self::W) -> Seq<u8> {
        enc_array_len(4) + <HashMap<DistrictID, District> as Wire>::enc(w.0) + <HashMap<CandidateID, Candidate> as Wire>::enc(w.1) + <HashMap<PartyID, Party> as Wire>::enc(w.2) + <HashMap<AreaID, Area> as Wire>::enc(w.3)
    }

    open spec fn dec(b: Seq<u8>) -> Option<(Self::W, Seq<u8>)> {
        match read_array_len(b) {
            Some((n, r0)) => if n != 4 {
                None
            } else {
                match <HashMap<DistrictID, District> as Wire>::dec(r0) {
                    Some((x0, r1)) => match <HashMap<CandidateID, Candidate> as Wire>::dec(r1) {
                        Some((x1, r2)) => match <HashMap<PartyID, Party> as Wire>::dec(r2) {
                            Some((x2, r3)) => match <HashMap<AreaID, Area> as Wire>::dec(r3) {
                                Some((x3, r4)) => Some(((x0, x1, x2, x3), r4)),
                                None => None,
                            },
                            None => None,
                        },
                        None => None,
                    },
                    None => None,
                }
            },
            None => None,
        }
    }

    fn fits_now(&self) -> (r: bool) {
        self.districts.fits_now() && self.candidates.fits_now() && self.parties.fits_now() && self.areas.fits_now()
    }

    fn put(&self, out: &mut Vec<u8>) {
        put_array_len(out, 4);
        self.districts.put(out);
        self.candidates.put(out);
        self.parties.put(out);
        self.areas.put(out);
        assert(final(out)@ =~= old(out)@ + Self::enc(self.wv()));
    }

    fn take(b: &[u8]) -> (r: Option<(ElectionStage, &[u8])>) {
        let (n, r0) = match take_array_len(b) {
            Some(x) => x,
            None => {
                return None;
            },
        };
        if n != 4 {
            return None;
        }
        let (x0, r1) = match <HashMap<DistrictID, District> as Wire>::take(r0) {
            Some(x) => x,
            None => {
                return None;
            },
        };
        let (x1, r2) = match <HashMap<CandidateID, Candidate> as Wire>::take(r1) {
            Some(x) => x,
            None => {
                return None;
            },
        };
        let (x2, r3) = match <HashMap<PartyID, Party> as Wire>::take(r2) {
            Some(x) => x,
            None => {
                return None;
            },
        };
        let (x3, r4) = match <HashMap<AreaID, Area> as Wire>::take(r3) {
            Some(x) => x,
            None => {
                return None;
            },
        };
        Some((ElectionStage { districts: x0, candidates: x1, parties: x2, areas: x3 }, r4))
    }

    proof fn lemma_dec_enc(w: Self::W, rest: Seq<u8>) {
        let t4 = rest;
        let t3 = <HashMap<AreaID, Area> as Wire>::enc(w.3) + t4;
        let t2 = <HashMap<PartyID, Party> as Wire>::enc(w.2) + t3;
        let t1 = <HashMap<CandidateID, Candidate> as Wire>::enc(w.1) + t2;
        let t0 = <HashMap<DistrictID, District> as Wire>::enc(w.0) + t1;
        assert(Self::enc(w) + rest =~= enc_array_len(4) + t0);
        lemma_read_array_len(4, t0);
        <HashMap<DistrictID, District> as Wire>::lemma_dec_enc(w.0, t1);
        <HashMap<CandidateID, Candidate> as Wire>::lemma_dec_enc(w.1, t2);
        <HashMap<PartyID, Party> as Wire>::lemma_dec_enc(w.2, t3);
        <HashMap<AreaID, Area> as Wire>::lemma_dec_enc(w.3, t4);
    }
}

/// Results are the array [districts, date].
impl Wire for ElectionResults {
    type W = (<HashMap<DistrictID, DistrictResults> as Wire>::W, <Date as Wire>::W);

    open spec fn wv(&self) -> Self::W {
        (self.districts.wv(), self.date.wv())
    }

    open spec fn fits(w: Self::W) -> bool {
        <HashMap<DistrictID, DistrictResults> as Wire>::fits(w.0) && <Date as Wire>::fits(w.1)
    }

    open spec fn enc(w: Self::W) -> Seq<u8> {
        enc_array_len(2) + <HashMap<DistrictID, DistrictResults> as Wire>::enc(w.0) + <Date as Wire>::enc(w.1)
    }

    open spec fn dec(b: Seq<u8>) -> Option<(Self::W, Seq<u8>)> {
        match read_array_len(b) {
            Some((n, r0)) => if n != 2 {
                None
            } else {
                match <HashMap<DistrictID, DistrictResults> as Wire>::dec(r0) {
                    Some((x0, r1)) => match <Date as Wire>::dec(r1) {
                        Some((x1, r2)) => Some(((x0, x1), r2)),
                        None => None,
                    },
                    None => None,
                }
            },
            None => None,
        }
    }

    fn fits_now(&self) -> (r: bool) {
        self.districts.fits_now() && self.date.fits_now()
    }

    fn put(&self, out: &mut Vec<u8>) {
        put_array_len(out, 2);
        self.districts.put(out);
        self.date.put(out);
        assert(final(out)@ =~= old(out)@ + Self::enc(self.wv()));
    }

    fn take(b: &[u8]) -> (r: Option<(ElectionResults, &[u8])>) {
        let (n, r0) = match take_array_len(b) {
            Some(x) => x,
            None => {
                return None;
            },
        };
        if n != 2 {
            return None;
        }
        let (x0, r1) = match <HashMap<DistrictID, DistrictResults> as Wire>::take(r0) {
            Some(x) => x,
            None => {
                return None;
            },
        };
        let (x1, r2) = match <Date as Wire>::take(r1) {
            Some(x) => x,
            None => {
                return None;
            },
        };
        Some((ElectionResults { districts: x0, date: x1 }, r2))
    }

    proof fn lemma_dec_enc(w: Self::W, rest: Seq<u8>) {
        let t2 = rest;
        let t1 = <Date as Wire>::enc(w.1) + t2;
        let t0 = <HashMap<DistrictID, DistrictResults> as Wire>::enc(w.0) + t1;
        assert(Self::enc(w) + rest =~= enc_array_len(2) + t0);
        lemma_read_array_len(2, t0);
        <HashMap<DistrictID, DistrictResults> as Wire>::lemma_dec_enc(w.0, t1);
        <Date as Wire>::lemma_dec_enc(w.1, t2);
    }
}


/// The content of a dataset: stage, results and groupings.
pub type Dataset = (<ElectionStage as Wire>::W, <ElectionResults as Wire>::W, <Groupings as Wire>::W);

/// The dataset fits the format: every collection and text has a length
/// below 2^32.
pub open spec fn dataset_fits(d: Dataset) -> bool {
    ElectionStage::fits(d.0) && ElectionResults::fits(d.1) && Groupings::fits(d.2)
}

/// The container bytes of a dataset: the array [stage, results, groupings].
pub open spec fn enc_dataset(d: Dataset) -> Seq<u8> {
    enc_array_len(3) + ElectionStage::enc(d.0) + ElectionResults::enc(d.1) + Groupings::enc(d.2)
}

/// The dataset that the bytes hold, if they hold exactly one.
pub open spec fn dec_dataset(b: Seq<u8>) -> Option<Dataset> {
    match read_array_len(b) {
        Some((n, r0)) => if n != 3 {
            None
        } else {
            match ElectionStage::dec(r0) {
                Some((s, r1)) => match ElectionResults::dec(r1) {
                    Some((r, r2)) => match Groupings::dec(r2) {
                        Some((g, r3)) => if r3.len() == 0 {
                            Some((s, r, g))
                        } else {
                            None
                        },
                        None => None,
                    },
                    None => None,
                },
                None => None,
            }
        },
        None => None,
    }
}

/// Why bytes could not be decoded.
#[derive(Debug, Clone, Copy, PartialEq, Eq, Structural)]
pub enum DecodeError {
    /// The bytes are truncated, malformed, or hold more than one dataset.
    Malformed,
}

/// Encodes a dataset into the container; `None` where a collection or a
/// text is too long for the format.
pub fn encode(stage: &ElectionStage, results: &ElectionResults, groupings: &Groupings) -> (r: Option<Vec<u8>>)
    ensures
        match r {
            Some(bytes) => dataset_fits((stage.wv(), results.wv(), groupings.wv()))
                && bytes@ == enc_dataset((stage.wv(), results.wv(), groupings.wv())),
            None => !dataset_fits((stage.wv(), results.wv(), groupings.wv())),
        },
{
    if !(stage.fits_now() && results.fits_now() && groupings.fits_now()) {
        return None;
    }
    let mut out: Vec<u8> = Vec::new();
    put_array_len(&mut out, 3);
    stage.put(&mut out);
    results.put(&mut out);
    groupings.put(&mut out);
    assert(out@ =~= enc_dataset((stage.wv(), results.wv(), groupings.wv())));
    Some(out)
}

/// Decodes a container holding exactly one dataset.
pub fn decode(bytes: &[u8]) -> (r: Result<(ElectionStage, ElectionResults, Groupings), DecodeError>)
    ensures
        match r {
            Ok((s, res, g)) => dec_dataset(bytes@) == Some((s.wv(), res.wv(), g.wv())),
            Err(_) => dec_dataset(bytes@) is None,
        },
{
    let (n, r0) = match take_array_len(bytes) {
        Some(x) => x,
        None => {
            return Err(DecodeError::Malformed);
        },
    };
    if n != 3 {
        return Err(DecodeError::Malformed);
    }
    let (s, r1) = match ElectionStage::take(r0) {
        Some(x) => x,
        None => {
            return Err(DecodeError::Malformed);
        },
    };
    let (res, r2) = match ElectionResults::take(r1) {
        Some(x) => x,
        None => {
            return Err(DecodeError::Malformed);
        },
    };
    let (g, r3) = match Groupings::take(r2) {
        Some(x) => x,
        None => {
            return Err(DecodeError::Malformed);
        },
    };
    if r3.len() != 0 {
        return Err(DecodeError::Malformed);
    }
    Ok((s, res, g))
}

/// Round trip: decoding the container bytes of a dataset that fits the
/// format gives back the same stage, results and groupings.
pub proof fn lemma_round_trip(d: Dataset)
    requires
        dataset_fits(d),
    ensures
        dec_dataset(enc_dataset(d)) == Some(d),
{
    let empty = Seq::<u8>::empty();
    let t2 = Groupings::enc(d.2) + empty;
    let t1 = ElectionResults::enc(d.1) + t2;
    let t0 = ElectionStage::enc(d.0) + t1;
    assert(enc_dataset(d) =~= enc_array_len(3) + t0);
    lemma_read_array_len(3, t0);
    ElectionStage::lemma_dec_enc(d.0, t1);
    ElectionResults::lemma_dec_enc(d.1, t2);
    Groupings::lemma_dec_enc(d.2, empty);
}

} // verus!
