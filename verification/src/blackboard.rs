//! Typed, bounded blackboard values and deterministic fuzzy predicates.

use vstd::prelude::*;
use vstd::utf8::encode_utf8;
use crate::ids::AgentId;
use crate::keyed::{sorted_keys, TextMap};
use crate::text::str_eq;

verus! {

pub const MAX_BLACKBOARD_TEXT_BYTES: usize = 256;

#[derive(Clone, Copy, Debug, PartialEq, Eq, Structural)]
pub enum BlackboardTypeV1 {
    Bool,
    NumberI32,
    Enum,
    AgentId,
    Text,
}

#[derive(Clone, Debug, PartialEq, Eq)]
pub enum BlackboardValueV1 {
    Bool(bool),
    NumberI32(i32),
    Enum(String),
    AgentId(AgentId),
    Text(String),
}

#[derive(Clone, Debug, PartialEq, Eq)]
pub struct BlackboardChannelV1 {
    pub key: String,
    pub value_type: BlackboardTypeV1,
    pub default: BlackboardValueV1,
}

#[derive(Clone, Debug, PartialEq, Eq)]
pub enum BlackboardError {
    EmptyKey,
    DuplicateKey(String),
    DefaultTypeMismatch(String),
    Undeclared(String),
    TypeMismatch { key: String, expected: BlackboardTypeV1 },
    TextTooLong(String),
}

#[derive(Clone, Debug, PartialEq, Eq)]
pub struct BlackboardChangeV1 {
    pub key: String,
    pub previous: BlackboardValueV1,
    pub current: BlackboardValueV1,
}

/// A value as a comparable triple: variant tag, number payload, text payload.
pub open spec fn value_view(v: BlackboardValueV1) -> (int, int, Seq<char>) {
    match v {
        BlackboardValueV1::Bool(b) => (0, if b { 1int } else { 0int }, Seq::empty()),
        BlackboardValueV1::NumberI32(n) => (1, n as int, Seq::empty()),
        BlackboardValueV1::Enum(s) => (2, 0, s@),
        BlackboardValueV1::AgentId(a) => (3, a.0 as int, Seq::empty()),
        BlackboardValueV1::Text(s) => (4, 0, s@),
    }
}

/// The value is of the declared type.
pub open spec fn value_has_type(v: BlackboardValueV1, t: BlackboardTypeV1) -> bool {
    match (v, t) {
        (BlackboardValueV1::Bool(_), BlackboardTypeV1::Bool) => true,
        (BlackboardValueV1::NumberI32(_), BlackboardTypeV1::NumberI32) => true,
        (BlackboardValueV1::Enum(_), BlackboardTypeV1::Enum) => true,
        (BlackboardValueV1::AgentId(_), BlackboardTypeV1::AgentId) => true,
        (BlackboardValueV1::Text(_), BlackboardTypeV1::Text) => true,
        _ => false,
    }
}

/// A text value longer than the blackboard accepts.
pub open spec fn text_too_long(v: BlackboardValueV1) -> bool {
    match v {
        BlackboardValueV1::Text(s) => (encode_utf8(s@).len() as usize) > MAX_BLACKBOARD_TEXT_BYTES,
        _ => false,
    }
}

pub fn matches_type(value: &BlackboardValueV1, value_type: BlackboardTypeV1) -> (r: bool)
    ensures
        r == value_has_type(*value, value_type),
{
    match (value, value_type) {
        (BlackboardValueV1::Bool(_), BlackboardTypeV1::Bool) => true,
        (BlackboardValueV1::NumberI32(_), BlackboardTypeV1::NumberI32) => true,
        (BlackboardValueV1::Enum(_), BlackboardTypeV1::Enum) => true,
        (BlackboardValueV1::AgentId(_), BlackboardTypeV1::AgentId) => true,
        (BlackboardValueV1::Text(_), BlackboardTypeV1::Text) => true,
        _ => false,
    }
}

fn is_text_too_long(value: &BlackboardValueV1) -> (r: bool)
    ensures
        r == text_too_long(*value),
{
    match value {
        BlackboardValueV1::Text(text) => text.as_str().len() > MAX_BLACKBOARD_TEXT_BYTES,
        _ => false,
    }
}

fn copy_value(value: &BlackboardValueV1) -> (r: BlackboardValueV1)
    ensures
        r == *value,
{
    match value {
        BlackboardValueV1::Bool(b) => BlackboardValueV1::Bool(*b),
        BlackboardValueV1::NumberI32(n) => BlackboardValueV1::NumberI32(*n),
        BlackboardValueV1::Enum(s) => BlackboardValueV1::Enum(s.clone()),
        BlackboardValueV1::AgentId(a) => BlackboardValueV1::AgentId(*a),
        BlackboardValueV1::Text(s) => BlackboardValueV1::Text(s.clone()),
    }
}

fn same_value(a: &BlackboardValueV1, b: &BlackboardValueV1) -> (r: bool)
    ensures
        r == (value_view(*a) == value_view(*b)),
{
    match (a, b) {
        (BlackboardValueV1::Bool(x), BlackboardValueV1::Bool(y)) => *x == *y,
        (BlackboardValueV1::NumberI32(x), BlackboardValueV1::NumberI32(y)) => *x == *y,
        (BlackboardValueV1::Enum(x), BlackboardValueV1::Enum(y)) => str_eq(x.as_str(), y.as_str()),
        (BlackboardValueV1::AgentId(x), BlackboardValueV1::AgentId(y)) => x.0 == y.0,
        (BlackboardValueV1::Text(x), BlackboardValueV1::Text(y)) => str_eq(x.as_str(), y.as_str()),
        _ => false,
    }
}

impl BlackboardChannelV1 {
    pub fn new(key: &str, value_type: BlackboardTypeV1, default: BlackboardValueV1) -> (c: Self)
        ensures
            c.key@ == key@,
            c.value_type == value_type,
            c.default == default,
    {
        Self { key: String::from_str(key), value_type, default }
    }
}

/// 0 when channel declaration `i` is acceptable; 1 for an empty key, 2 for a
/// key declared before, 3 for a default of the wrong type or too long.
pub open spec fn channel_problem(chs: Seq<BlackboardChannelV1>, i: int) -> int {
    if chs[i].key@.len() == 0 {
        1
    } else if exists|j: int| 0 <= j < i && (#[trigger] chs[j]).key@ == chs[i].key@ {
        2
    } else if !value_has_type(chs[i].default, chs[i].value_type) || text_too_long(chs[i].default) {
        3
    } else {
        0
    }
}

/// The first unacceptable declaration among the first `n`, or -1.
pub open spec fn first_channel_problem(chs: Seq<BlackboardChannelV1>, n: nat) -> int
    decreases n,
{
    if n == 0 {
        -1
    } else if first_channel_problem(chs, (n - 1) as nat) >= 0 {
        first_channel_problem(chs, (n - 1) as nat)
    } else if channel_problem(chs, n - 1) != 0 {
        n - 1
    } else {
        -1
    }
}

proof fn lemma_first_channel_problem_stable(chs: Seq<BlackboardChannelV1>, m: nat, n: nat)
    requires
        m <= n,
        first_channel_problem(chs, m) >= 0,
    ensures
        first_channel_problem(chs, n) == first_channel_problem(chs, m),
    decreases n,
{
    if n > m {
        lemma_first_channel_problem_stable(chs, m, (n - 1) as nat);
    }
}

/// The channels declared by the first `n` declarations, by key.
pub open spec fn declared_channels(chs: Seq<BlackboardChannelV1>, n: nat) -> Map<
    Seq<char>,
    BlackboardChannelV1,
>
    decreases n,
{
    if n == 0 {
        Map::empty()
    } else {
        declared_channels(chs, (n - 1) as nat).insert(chs[n - 1].key@, chs[n - 1])
    }
}

proof fn lemma_declared_dom(chs: Seq<BlackboardChannelV1>, n: nat, k: Seq<char>)
    requires
        n <= chs.len(),
    ensures
        declared_channels(chs, n).dom().contains(k) <==> exists|j: int| 0 <= j < n && (#[trigger] chs[j]).key@ == k,
    decreases n,
{
    if n > 0 {
        lemma_declared_dom(chs, (n - 1) as nat, k);
        if chs[n - 1].key@ == k {
            assert(chs[n - 1].key@ == k);
        }
    }
}

/// Typed blackboard state: declared channels, current values, and the changes
/// recorded since the last drain.
#[derive(Debug)]
pub struct BlackboardStateV1 {
    channels: TextMap<BlackboardChannelV1>,
    values: TextMap<BlackboardValueV1>,
    changes: TextMap<(BlackboardValueV1, BlackboardValueV1)>,
}

impl BlackboardStateV1 {
    /// The declared channels, by key.
    pub closed spec fn channel_map(&self) -> Map<Seq<char>, BlackboardChannelV1> {
        self.channels.as_map()
    }

    /// The current values, by key.
    pub closed spec fn value_map(&self) -> Map<Seq<char>, (int, int, Seq<char>)> {
        self.values.as_map().map_values(|v: BlackboardValueV1| value_view(v))
    }

    /// The recorded changes (first previous value, latest value), by key.
    pub closed spec fn change_map(&self) -> Map<Seq<char>, ((int, int, Seq<char>), (int, int, Seq<char>))> {
        self.changes.as_map().map_values(
            |c: (BlackboardValueV1, BlackboardValueV1)| (value_view(c.0), value_view(c.1)),
        )
    }

    /// Every declared key has exactly one current value, of its declared type.
    pub closed spec fn wf(&self) -> bool {
        &&& self.channels.wf()
        &&& self.values.wf()
        &&& self.changes.wf()
        &&& self.values.as_map().dom() == self.channels.as_map().dom()
        &&& forall|k: Seq<char>| #[trigger] self.values.as_map().dom().contains(k) ==> value_has_type(
            self.values.as_map()[k],
            self.channels.as_map()[k].value_type,
        ) && !text_too_long(self.values.as_map()[k])
    }

    pub fn new(channels: Vec<BlackboardChannelV1>) -> (r: Result<Self, BlackboardError>)
        ensures
            r is Ok <==> first_channel_problem(channels@, channels@.len()) < 0,
            r matches Ok(bb) ==> bb.wf() && bb.channel_map() == declared_channels(channels@, channels@.len())
                && bb.value_map() == declared_channels(channels@, channels@.len()).map_values(
                |c: BlackboardChannelV1| value_view(c.default),
            ) && bb.change_map() == Map::<Seq<char>, ((int, int, Seq<char>), (int, int, Seq<char>))>::empty(),
            r is Err ==> ({
                let k = first_channel_problem(channels@, channels@.len());
                0 <= k < channels@.len() && match r->Err_0 {
                    BlackboardError::EmptyKey => channel_problem(channels@, k) == 1,
                    BlackboardError::DuplicateKey(key) => channel_problem(channels@, k) == 2
                        && key@ == channels@[k].key@,
                    BlackboardError::DefaultTypeMismatch(key) => channel_problem(channels@, k) == 3
                        && key@ == channels@[k].key@,
                    _ => false,
                }
            }),
    {
        let ghost input = channels@;
        let total = channels.len();
        let mut rest = channels;
        let mut definitions: TextMap<BlackboardChannelV1> = TextMap::new();
        let mut values: TextMap<BlackboardValueV1> = TextMap::new();
        let mut i: usize = 0;
        while rest.len() > 0
            invariant
                total == input.len(),
                input == channels@,
                i <= input.len(),
                rest@ == input.subrange(i as int, input.len() as int),
                definitions.wf(),
                values.wf(),
                definitions.as_map() == declared_channels(input, i as nat),
                values.as_map().map_values(|v: BlackboardValueV1| value_view(v)) == declared_channels(input, i as nat).map_values(
                    |c: BlackboardChannelV1| value_view(c.default),
                ),
                values.as_map().dom() == definitions.as_map().dom(),
                forall|k: Seq<char>| #[trigger] values.as_map().dom().contains(k) ==> value_has_type(
                    values.as_map()[k],
                    definitions.as_map()[k].value_type,
                ) && !text_too_long(values.as_map()[k]),
                first_channel_problem(input, i as nat) < 0,
            decreases rest@.len(),
        {
            let channel = rest.remove(0);
            assert(channel == input[i as int]);
            proof {
                lemma_declared_dom(input, i as nat, channel.key@);
            }
            if channel.key.as_str().is_empty() {
                proof {
                    assert(channel_problem(input, i as int) == 1);
                    assert(first_channel_problem(input, (i + 1) as nat) == i as int);
                    lemma_first_channel_problem_stable(input, (i + 1) as nat, input.len());
                }
                return Err(BlackboardError::EmptyKey);
            }
            if definitions.contains_key(channel.key.as_str()) {
                proof {
                    let j = choose|j: int| 0 <= j < i && (#[trigger] input[j]).key@ == channel.key@;
                    assert(channel_problem(input, i as int) == 2);
                    assert(first_channel_problem(input, (i + 1) as nat) == i as int);
                    lemma_first_channel_problem_stable(input, (i + 1) as nat, input.len());
                }
                return Err(BlackboardError::DuplicateKey(channel.key));
            }
            if !matches_type(&channel.default, channel.value_type) || is_text_too_long(&channel.default) {
                proof {
                    assert(channel_problem(input, i as int) == 3);
                    assert(first_channel_problem(input, (i + 1) as nat) == i as int);
                    lemma_first_channel_problem_stable(input, (i + 1) as nat, input.len());
                }
                return Err(BlackboardError::DefaultTypeMismatch(channel.key));
            }
            proof {
                assert(channel_problem(input, i as int) == 0);
            }
            let ghost vb = values.as_map();
            let ghost db = definitions.as_map();
            let ghost ch = channel;
            values.insert(channel.key.clone(), copy_value(&channel.default));
            let key = channel.key.clone();
            definitions.insert(key, channel);
            proof {
                assert(values.as_map() == vb.insert(ch.key@, ch.default));
                assert(values.as_map().map_values(|v: BlackboardValueV1| value_view(v)) =~= vb.map_values(
                    |v: BlackboardValueV1| value_view(v),
                ).insert(ch.key@, value_view(ch.default)));
                assert(declared_channels(input, (i + 1) as nat) == declared_channels(input, i as nat).insert(ch.key@, ch));
                assert(declared_channels(input, (i + 1) as nat).map_values(|c: BlackboardChannelV1| value_view(c.default)) =~= declared_channels(input, i as nat).map_values(
                    |c: BlackboardChannelV1| value_view(c.default),
                ).insert(ch.key@, value_view(ch.default)));
                assert(values.as_map().map_values(|v: BlackboardValueV1| value_view(v)) =~= declared_channels(input, (i + 1) as nat).map_values(
                    |c: BlackboardChannelV1| value_view(c.default),
                ));
                assert(values.as_map().dom() =~= definitions.as_map().dom());
            }
            i = i + 1;
        }
        proof {
            assert(input.subrange(0, i as int) =~= input);
        }
        let changes: TextMap<(BlackboardValueV1, BlackboardValueV1)> = TextMap::new();
        let bb = Self { channels: definitions, values, changes };
        proof {
            assert(bb.change_map() =~= Map::<Seq<char>, ((int, int, Seq<char>), (int, int, Seq<char>))>::empty());
        }
        Ok(bb)
    }

    /// The current value of `key`, if declared.
    pub fn get(&self, key: &str) -> (r: Option<&BlackboardValueV1>)
        requires
            self.wf(),
        ensures
            r is Some <==> self.value_map().dom().contains(key@),
            r matches Some(v) ==> value_view(*v) == self.value_map()[key@],
    {
        self.values.get(key)
    }

    /// Write `value` to `key`. A rejected write changes nothing; a write of
    /// the current value records no change.
    pub fn set(&mut self, key: &str, value: BlackboardValueV1) -> (r: Result<(), BlackboardError>)
        requires
            old(self).wf(),
        ensures
            final(self).wf(),
            final(self).channel_map() == old(self).channel_map(),
            !old(self).channel_map().dom().contains(key@) ==> (r matches Err(BlackboardError::Undeclared(k))
                && k@ == key@),
            old(self).channel_map().dom().contains(key@) && !value_has_type(
                value,
                old(self).channel_map()[key@].value_type,
            ) ==> (r matches Err(BlackboardError::TypeMismatch { key: k, expected }) && k@ == key@
                && expected == old(self).channel_map()[key@].value_type),
            old(self).channel_map().dom().contains(key@) && value_has_type(
                value,
                old(self).channel_map()[key@].value_type,
            ) && text_too_long(value) ==> (r matches Err(BlackboardError::TextTooLong(k)) && k@ == key@),
            r is Err ==> final(self).value_map() == old(self).value_map() && final(self).change_map()
                == old(self).change_map(),
            r is Ok <==> old(self).channel_map().dom().contains(key@) && value_has_type(
                value,
                old(self).channel_map()[key@].value_type,
            ) && !text_too_long(value),
            r is Ok && old(self).value_map()[key@] == value_view(value) ==> final(self).value_map()
                == old(self).value_map() && final(self).change_map() == old(self).change_map(),
            r is Ok && old(self).value_map()[key@] != value_view(value) ==> final(self).value_map()
                == old(self).value_map().insert(key@, value_view(value)) && final(self).change_map() == (
            if old(self).change_map().dom().contains(key@) {
                old(self).change_map().insert(key@, (old(self).change_map()[key@].0, value_view(value)))
            } else {
                old(self).change_map().insert(key@, (old(self).value_map()[key@], value_view(value)))
            }),
    {
        let channel_type = match self.channels.get(key) {
            None => {
                return Err(BlackboardError::Undeclared(String::from_str(key)));
            },
            Some(channel) => channel.value_type,
        };
        if !matches_type(&value, channel_type) {
            return Err(BlackboardError::TypeMismatch { key: String::from_str(key), expected: channel_type });
        }
        if is_text_too_long(&value) {
            return Err(BlackboardError::TextTooLong(String::from_str(key)));
        }
        let ghost vm = self.values.as_map();
        let ghost cm = self.changes.as_map();
        let i = match self.values.find(key) {
            Some(i) => i,
            None => {
                assert(false);
                return Ok(());
            },
        };
        proof {
            self.values.lemma_lookup(i as int);
        }
        let previous = copy_value(self.values.value_at(i));
        if same_value(&previous, &value) {
            return Ok(());
        }
        let stored = copy_value(&value);
        self.values.replace_at(i, stored);
        proof {
            assert(self.values.as_map().dom() =~= vm.dom());
        }
        match self.changes.find(key) {
            Some(c) => {
                proof {
                    self.changes.lemma_lookup(c as int);
                }
                let first = copy_value(&self.changes.value_at(c).0);
                self.changes.replace_at(c, (first, value));
            },
            None => {
                self.changes.insert(String::from_str(key), (previous, value));
            },
        }
        proof {
            assert(self.value_map() =~= vm.map_values(|v: BlackboardValueV1| value_view(v)).insert(key@, value_view(value)));
        }
        Ok(())
    }

    /// Take the recorded changes, in key order, leaving none recorded.
    pub fn drain_changes(&mut self) -> (r: Vec<BlackboardChangeV1>)
        requires
            old(self).wf(),
        ensures
            final(self).wf(),
            final(self).channel_map() == old(self).channel_map(),
            final(self).value_map() == old(self).value_map(),
            final(self).change_map() == Map::<Seq<char>, ((int, int, Seq<char>), (int, int, Seq<char>))>::empty(),
            r@.len() == sorted_keys(old(self).change_map().dom()).len(),
            forall|i: int| 0 <= i < r@.len() ==> {
                let k = sorted_keys(old(self).change_map().dom())[i];
                &&& (#[trigger] r@[i]).key@ == k
                &&& value_view(r@[i].previous) == old(self).change_map()[k].0
                &&& value_view(r@[i].current) == old(self).change_map()[k].1
            },
    {
        let mut changes: TextMap<(BlackboardValueV1, BlackboardValueV1)> = TextMap::new();
        std::mem::swap(&mut changes, &mut self.changes);
        let ghost cm = changes.as_map();
        proof {
            changes.lemma_keys_sorted();
            assert(self.change_map() =~= Map::<Seq<char>, ((int, int, Seq<char>), (int, int, Seq<char>))>::empty());
            assert(cm.map_values(|c: (BlackboardValueV1, BlackboardValueV1)| (value_view(c.0), value_view(c.1))).dom() =~= cm.dom());
        }
        let mut out: Vec<BlackboardChangeV1> = Vec::new();
        let mut i: usize = 0;
        while i < changes.len()
            invariant
                changes.wf(),
                changes.as_map() == cm,
                changes.keys() == sorted_keys(cm.dom()),
                i <= changes.keys().len(),
                out@.len() == i,
                forall|j: int| 0 <= j < i ==> {
                    let k = changes.keys()[j];
                    &&& (#[trigger] out@[j]).key@ == k
                    &&& value_view(out@[j].previous) == value_view(cm[k].0)
                    &&& value_view(out@[j].current) == value_view(cm[k].1)
                },
            decreases changes.keys().len() - i,
        {
            proof {
                changes.lemma_lookup(i as int);
            }
            let key = changes.key_at(i).clone();
            let pair = changes.value_at(i);
            let change = BlackboardChangeV1 { key, previous: copy_value(&pair.0), current: copy_value(&pair.1) };
            out.push(change);
            i = i + 1;
        }
        out
    }
}

/// Fuzzy membership of `value` in the ramp from `lower` (0) to `upper`
/// (1000000), in millionths.
pub open spec fn fuzzy_membership_spec(value: i32, lower: i32, upper: i32) -> int {
    if lower >= upper {
        if value >= upper {
            1_000_000
        } else {
            0
        }
    } else if value <= lower {
        0
    } else if value >= upper {
        1_000_000
    } else {
        ((value - lower) * 1_000_000) / (upper - lower)
    }
}

/// Membership is none at or below the ramp's start, full at or beyond its
/// end, and in between the share of the ramp covered, rounded down: `m`
/// millionths exactly when `m` of them fit under the covered share and
/// `m + 1` do not.
pub proof fn lemma_fuzzy_membership_ramp(value: i32, lower: i32, upper: i32)
    requires
        lower < upper,
    ensures
        value <= lower ==> fuzzy_membership_spec(value, lower, upper) == 0,
        value >= upper ==> fuzzy_membership_spec(value, lower, upper) == 1_000_000,
        lower < value < upper ==> {
            let m = fuzzy_membership_spec(value, lower, upper);
            &&& m * (upper - lower) <= (value - lower) * 1_000_000
            &&& (value - lower) * 1_000_000 < (m + 1) * (upper - lower)
            &&& 0 <= m < 1_000_000
        },
{
    if lower < value < upper {
        let a = (value - lower) * 1_000_000;
        let d = upper - lower;
        let m = a / d;
        vstd::arithmetic::div_mod::lemma_fundamental_div_mod(a, d);
        assert(0 <= a % d < d) by {
            vstd::arithmetic::div_mod::lemma_mod_bound(a, d);
        }
        assert(m * d == d * m) by (nonlinear_arith);
        assert((m + 1) * d == d * m + d) by (nonlinear_arith);
        assert(a < d * 1_000_000) by (nonlinear_arith)
            requires
                a == (value - lower) * 1_000_000,
                d == upper - lower,
                value < upper,
        ;
        assert(a > 0) by (nonlinear_arith)
            requires
                a == (value - lower) * 1_000_000,
                value > lower,
        ;
        assert(0 <= m < 1_000_000) by (nonlinear_arith)
            requires
                a == d * m + a % d,
                0 <= a % d < d,
                a < d * 1_000_000,
                a > 0,
                d > 0,
        ;
    }
}

pub fn fuzzy_membership(value: i32, lower: i32, upper: i32) -> (m: u32)
    ensures
        m as int == fuzzy_membership_spec(value, lower, upper),
        m <= 1_000_000,
{
    if lower >= upper {
        return if value >= upper {
            1_000_000
        } else {
            0
        };
    }
    if value <= lower {
        0
    } else if value >= upper {
        1_000_000
    } else {
        let num: i64 = (value as i64 - lower as i64) * 1_000_000;
        let den: i64 = upper as i64 - lower as i64;
        assert(0 < num);
        assert(num < den * 1_000_000) by (nonlinear_arith)
            requires
                num == (value - lower) * 1_000_000,
                den == upper - lower,
                value < upper,
        ;
        let q = num / den;
        assert(q <= 1_000_000) by (nonlinear_arith)
            requires
                q == num / den,
                num < den * 1_000_000,
                den > 0,
                num > 0,
        ;
        q as u32
    }
}

/// Membership rises with the value: the ramp never decreases.
pub proof fn lemma_fuzzy_membership_monotone(a: i32, b: i32, lower: i32, upper: i32)
    requires
        a <= b,
    ensures
        fuzzy_membership_spec(a, lower, upper) <= fuzzy_membership_spec(b, lower, upper),
{
    if lower < upper && lower < a && a < upper && lower < b && b < upper {
        let d = upper - lower;
        assert((a - lower) * 1_000_000 <= (b - lower) * 1_000_000) by (nonlinear_arith)
            requires
                a <= b,
        ;
        assert(((a - lower) * 1_000_000) / d <= ((b - lower) * 1_000_000) / d) by (nonlinear_arith)
            requires
                (a - lower) * 1_000_000 <= (b - lower) * 1_000_000,
                d > 0,
        ;
    } else if lower < upper && lower < a && a < upper && b >= upper {
        assert(((a - lower) * 1_000_000) / (upper - lower) <= 1_000_000) by (nonlinear_arith)
            requires
                a < upper,
                lower < a,
        ;
    }
}

#[derive(Clone, Copy, Debug, PartialEq, Eq, Structural)]
pub enum FuzzyComparisonV1 {
    LessThan,
    LessOrEqual,
    GreaterThan,
    GreaterOrEqual,
    Equal,
    BetweenInclusive(i32, i32),
}

/// Each comparison is the plain integer comparison it names: a value is
/// greater than a threshold exactly when it exceeds it, and so on, and a
/// value lies between two bounds exactly when neither bound excludes it.
pub proof fn lemma_fuzzy_compare_is_plain(value: i32, threshold: i32, lower: i32, upper: i32)
    ensures
        fuzzy_compare_spec(value, FuzzyComparisonV1::LessThan, threshold) <==> value < threshold,
        fuzzy_compare_spec(value, FuzzyComparisonV1::LessOrEqual, threshold) <==> value <= threshold,
        fuzzy_compare_spec(value, FuzzyComparisonV1::GreaterThan, threshold) <==> value > threshold,
        fuzzy_compare_spec(value, FuzzyComparisonV1::GreaterOrEqual, threshold) <==> value >= threshold,
        fuzzy_compare_spec(value, FuzzyComparisonV1::Equal, threshold) <==> value == threshold,
        fuzzy_compare_spec(value, FuzzyComparisonV1::BetweenInclusive(lower, upper), threshold) <==> lower <= value
            && value <= upper,
        fuzzy_compare_spec(value, FuzzyComparisonV1::GreaterThan, threshold) <==> !fuzzy_compare_spec(
            value,
            FuzzyComparisonV1::LessOrEqual,
            threshold,
        ),
        fuzzy_compare_spec(value, FuzzyComparisonV1::LessThan, threshold) <==> !fuzzy_compare_spec(
            value,
            FuzzyComparisonV1::GreaterOrEqual,
            threshold,
        ),
{
}

pub open spec fn fuzzy_compare_spec(value: i32, comparison: FuzzyComparisonV1, threshold: i32) -> bool {
    match comparison {
        FuzzyComparisonV1::LessThan => value < threshold,
        FuzzyComparisonV1::LessOrEqual => value <= threshold,
        FuzzyComparisonV1::GreaterThan => value > threshold,
        FuzzyComparisonV1::GreaterOrEqual => value >= threshold,
        FuzzyComparisonV1::Equal => value == threshold,
        FuzzyComparisonV1::BetweenInclusive(lower, upper) => value >= lower && value <= upper,
    }
}

pub fn fuzzy_compare(value: i32, comparison: FuzzyComparisonV1, threshold: i32) -> (r: bool)
    ensures
        r == fuzzy_compare_spec(value, comparison, threshold),
        comparison == FuzzyComparisonV1::LessThan ==> (r <==> value < threshold),
        comparison == FuzzyComparisonV1::LessOrEqual ==> (r <==> value <= threshold),
        comparison == FuzzyComparisonV1::GreaterThan ==> (r <==> value > threshold),
        comparison == FuzzyComparisonV1::GreaterOrEqual ==> (r <==> value >= threshold),
        comparison == FuzzyComparisonV1::Equal ==> (r <==> value == threshold),
        forall|lower: i32, upper: i32|
            comparison == FuzzyComparisonV1::BetweenInclusive(lower, upper) ==> (r <==> lower <= value && value <= upper),
{
    match comparison {
        FuzzyComparisonV1::LessThan => value < threshold,
        FuzzyComparisonV1::LessOrEqual => value <= threshold,
        FuzzyComparisonV1::GreaterThan => value > threshold,
        FuzzyComparisonV1::GreaterOrEqual => value >= threshold,
        FuzzyComparisonV1::Equal => value == threshold,
        FuzzyComparisonV1::BetweenInclusive(lower, upper) => value >= lower && value <= upper,
    }
}

} // verus!
