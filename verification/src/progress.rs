//! The progress control: a maximum, an optional value, and what is read
//! from them.
//!
//! The maximum is positive at all times. The value is absent until it is
//! first set, which means that progress is indeterminate; once set it is
//! never negative. It is stored as it was given and held to the maximum of
//! the moment only when it is read, so that a later change of the maximum
//! shows in every later reading.
use crate::finite::{
    is_finite_bits, lemma_named_values, scaled_value, unit, Finite, MINUS_ONE_BITS, ONE_BITS,
    ZERO_BITS,
};
use crate::labels::{labels_step, LabelsCache, NodeListId};
use crate::quotient::{
    is_rounded_quotient, lemma_rounded_quotient_in_unit, lemma_rounded_quotient_unique,
};
use html5ever::{LocalName, Prefix};
use vstd::math::min;
use vstd::prelude::*;

verus! {

/// An interned string of `string_cache`, the type behind the tag names and
/// the namespace prefixes of `html5ever`. It is carried through as it
/// comes; nothing is claimed of what it holds.
#[verifier::external_type_specification]
#[verifier::external_body]
#[verifier::reject_recursive_types(Static)]
pub struct ExAtom<Static>(string_cache::Atom<Static>);

/// The marker of `html5ever` that tells tag names from other interned
/// strings. It has no contents.
#[verifier::external_type_specification]
#[verifier::external_body]
pub struct ExLocalNameStaticSet(html5ever::LocalNameStaticSet);

/// The marker of `html5ever` that tells namespace prefixes from other
/// interned strings. It has no contents.
#[verifier::external_type_specification]
#[verifier::external_body]
pub struct ExPrefixStaticSet(html5ever::PrefixStaticSet);

/// The identity of a document.
#[derive(Clone, Copy, Debug, PartialEq, Eq, Structural)]
pub struct DocumentId(pub u64);

/// The state of a progress control. Numbers are given by their bit
/// patterns.
pub struct ProgressState {
    /// The maximum.
    pub max: u64,
    /// The value as it was last set, if it ever was.
    pub value: Option<u64>,
    /// The cached collection of labels.
    pub labels: Option<NodeListId>,
    /// The document that owns the control.
    pub owner_document: DocumentId,
    /// The tag name that the control was created with.
    pub local_name: LocalName,
    /// The namespace prefix that the control was created with.
    pub prefix: Option<Prefix>,
}

impl ProgressState {
    /// The invariant of the state: the maximum is a positive number, and
    /// the value, where present, a number that is not negative.
    pub open spec fn wf(self) -> bool {
        &&& is_finite_bits(self.max)
        &&& scaled_value(self.max) > 0
        &&& self.value matches Some(v) ==> is_finite_bits(v) && scaled_value(v) >= 0
    }

    /// The state of a control that was just created: maximum `1.0`, no
    /// value, no labels cached.
    pub open spec fn initial(
        local_name: LocalName,
        prefix: Option<Prefix>,
        owner_document: DocumentId,
    ) -> ProgressState {
        ProgressState {
            max: ONE_BITS,
            value: None,
            labels: None,
            owner_document,
            local_name,
            prefix,
        }
    }

    /// The value as it reads: zero where none is set, else the stored value,
    /// or the maximum where the stored value exceeds it.
    pub open spec fn current_value(self) -> u64 {
        match self.value {
            None => ZERO_BITS,
            Some(v) => if scaled_value(v) > scaled_value(self.max) {
                self.max
            } else {
                v
            },
        }
    }

    /// The state after an attempt to set the value: a number that is not
    /// negative replaces the value, any other changes nothing.
    pub open spec fn set_value(self, new_val: u64) -> ProgressState {
        if 0 <= scaled_value(new_val) {
            ProgressState { value: Some(new_val), ..self }
        } else {
            self
        }
    }

    /// The state after an attempt to set the maximum: a positive number
    /// replaces the maximum, any other changes nothing.
    pub open spec fn set_max(self, new_val: u64) -> ProgressState {
        if scaled_value(new_val) > 0 {
            ProgressState { max: new_val, ..self }
        } else {
            self
        }
    }

    /// Whether `p` is the position: `-1.0` while no value is set, else the
    /// value as it reads divided by the maximum, correctly rounded.
    pub open spec fn is_position(self, p: u64) -> bool {
        match self.value {
            None => p == MINUS_ONE_BITS,
            Some(_) => is_rounded_quotient(p, self.current_value(), self.max),
        }
    }

    /// The same state with another labels cache.
    pub open spec fn with_labels(self, labels: Option<NodeListId>) -> ProgressState {
        ProgressState { labels, ..self }
    }
}

/// A new control is in a valid state, and no attempt to set the value or the
/// maximum, whatever the number, nor any change of the labels cache, leads
/// out of the valid states: the maximum stays positive and the value, once
/// present, stays non-negative.
pub proof fn lemma_state_stays_valid(
    s: ProgressState,
    x: u64,
    labels: Option<NodeListId>,
    local_name: LocalName,
    prefix: Option<Prefix>,
    document: DocumentId,
)
    requires
        s.wf(),
        is_finite_bits(x),
    ensures
        ProgressState::initial(local_name, prefix, document).wf(),
        s.set_value(x).wf(),
        s.set_max(x).wf(),
        s.with_labels(labels).wf(),
{
    lemma_named_values();
}

/// A value that is not negative, once set, reads back as the smaller of
/// itself and the maximum.
pub proof fn lemma_value_after_set_value(s: ProgressState, v: u64)
    requires
        s.wf(),
        is_finite_bits(v),
        0 <= scaled_value(v),
    ensures
        scaled_value(s.set_value(v).current_value()) == min(scaled_value(v), scaled_value(s.max)),
        s.set_value(v).current_value() == v || s.set_value(v).current_value() == s.max,
{
}

/// The value as it reads lies between zero and the maximum.
pub proof fn lemma_value_within_max(s: ProgressState)
    requires
        s.wf(),
    ensures
        is_finite_bits(s.current_value()),
        0 <= scaled_value(s.current_value()) <= scaled_value(s.max),
{
    lemma_named_values();
}

/// An attempt to set a negative value changes nothing: the value reads as
/// it did before, and so does everything else.
pub proof fn lemma_negative_value_ignored(s: ProgressState, v: u64)
    requires
        scaled_value(v) < 0,
    ensures
        s.set_value(v) == s,
        s.set_value(v).current_value() == s.current_value(),
{
}

/// A positive maximum, once set, is the maximum.
pub proof fn lemma_max_after_set_max(s: ProgressState, m: u64)
    requires
        0 < scaled_value(m),
    ensures
        s.set_max(m).max == m,
{
}

/// An attempt to set a maximum that is not positive changes nothing.
pub proof fn lemma_non_positive_max_ignored(s: ProgressState, m: u64)
    requires
        scaled_value(m) <= 0,
    ensures
        s.set_max(m) == s,
        s.set_max(m).max == s.max,
{
}

/// The state after a run of attempts to set the maximum, in their order.
pub open spec fn after_max_attempts(s: ProgressState, attempts: Seq<u64>) -> ProgressState
    decreases attempts.len(),
{
    if attempts.len() == 0 {
        s
    } else {
        after_max_attempts(s, attempts.drop_last()).set_max(attempts.last())
    }
}

/// Until a value is set for the first time the position is `-1.0`: a new
/// control has that position and no other, whatever attempts to set the
/// maximum were made on it, and whatever was done to its labels cache.
pub proof fn lemma_position_before_any_value(
    local_name: LocalName,
    prefix: Option<Prefix>,
    document: DocumentId,
    attempts: Seq<u64>,
    labels: Option<NodeListId>,
    p: u64,
)
    ensures
        ({
            let s = after_max_attempts(
                ProgressState::initial(local_name, prefix, document),
                attempts,
            );
            &&& s.value is None
            &&& s.is_position(p) <==> p == MINUS_ONE_BITS
            &&& s.with_labels(labels).is_position(p) <==> p == MINUS_ONE_BITS
        }),
        scaled_value(MINUS_ONE_BITS) == -unit(),
    decreases attempts.len(),
{
    lemma_named_values();
    if attempts.len() > 0 {
        lemma_position_before_any_value(
            local_name,
            prefix,
            document,
            attempts.drop_last(),
            labels,
            p,
        );
    }
}

/// After a value that is not negative is set, the position is the smaller
/// of the value and the maximum, divided by the maximum and correctly
/// rounded; it lies between zero and one.
pub proof fn lemma_position_after_set_value(s: ProgressState, v: u64, p: u64)
    requires
        s.wf(),
        is_finite_bits(v),
        0 <= scaled_value(v),
        s.set_value(v).is_position(p),
    ensures
        is_rounded_quotient(p, s.set_value(v).current_value(), s.max),
        scaled_value(s.set_value(v).current_value()) == min(scaled_value(v), scaled_value(s.max)),
        0 <= scaled_value(p) <= unit(),
{
    lemma_rounded_quotient_in_unit(p, s.set_value(v).current_value(), s.max);
}

/// The position of a valid state is unique: `is_position` holds of one
/// pattern only.
pub proof fn lemma_position_unique(s: ProgressState, first: u64, second: u64)
    requires
        s.wf(),
        s.is_position(first),
        s.is_position(second),
    ensures
        first == second,
{
    if s.value is Some {
        lemma_rounded_quotient_unique(first, second, s.current_value(), s.max);
    }
}

/// The value is held to the maximum when it is read, not when it is set:
/// setting the value and then the maximum leaves the same state as setting
/// them the other way round.
pub proof fn lemma_setters_commute(s: ProgressState, v: u64, m: u64)
    ensures
        s.set_value(v).set_max(m) == s.set_max(m).set_value(v),
{
}

/// A progress control of a document tree.
pub struct HTMLProgressElement {
    local_name: LocalName,
    prefix: Option<Prefix>,
    owner_document: DocumentId,
    labels_node_list: LabelsCache,
    max: Finite,
    value: Option<Finite>,
}

impl View for HTMLProgressElement {
    type V = ProgressState;

    closed spec fn view(&self) -> ProgressState {
        ProgressState {
            max: self.max.bits(),
            value: match self.value {
                Some(v) => Some(v.bits()),
                None => None,
            },
            labels: self.labels_node_list@,
            owner_document: self.owner_document,
            local_name: self.local_name,
            prefix: self.prefix,
        }
    }
}

impl HTMLProgressElement {
    #[verifier::type_invariant]
    spec fn inv(self) -> bool {
        self@.wf()
    }

    /// The control itself, before it is handed out.
    fn new_inherited(
        local_name: LocalName,
        prefix: Option<Prefix>,
        document: DocumentId,
    ) -> (element: HTMLProgressElement)
        ensures
            element@ == ProgressState::initial(local_name, prefix, document),
    {
        proof {
            lemma_named_values();
        }
        HTMLProgressElement {
            local_name,
            prefix,
            owner_document: document,
            labels_node_list: LabelsCache::new(),
            max: Finite::one(),
            value: None,
        }
    }

    /// A control with the given tag name and namespace prefix, owned by the
    /// given document: its maximum is `1.0`, it has no value, and no labels
    /// are cached.
    pub fn new(local_name: LocalName, prefix: Option<Prefix>, document: DocumentId) -> (element:
        HTMLProgressElement)
        ensures
            element@ == ProgressState::initial(local_name, prefix, document),
            element@.wf(),
    {
        proof {
            lemma_named_values();
        }
        HTMLProgressElement::new_inherited(local_name, prefix, document)
    }

    /// The value as it reads: zero while none is set, else the stored value
    /// held to the maximum of the moment.
    #[allow(non_snake_case)]
    pub fn Value(&self) -> (value: Finite)
        ensures
            value.bits() == self@.current_value(),
            self@.wf(),
    {
        proof {
            use_type_invariant(self);
        }
        let max = self.max;
        match self.value {
            Some(v) => if max.lt(&v) {
                max
            } else {
                v
            },
            None => Finite::zero(),
        }
    }

    /// Stores the value if it is not negative; else does nothing.
    #[allow(non_snake_case)]
    pub fn SetValue(&mut self, new_val: Finite)
        ensures
            final(self)@ == old(self)@.set_value(new_val.bits()),
            final(self)@.wf(),
    {
        proof {
            use_type_invariant(&*self);
            use_type_invariant(&new_val);
        }
        let zero = Finite::zero();
        if zero.le(&new_val) {
            self.value = Some(new_val);
        }
    }

    /// The maximum.
    #[allow(non_snake_case)]
    pub fn Max(&self) -> (max: Finite)
        ensures
            max.bits() == self@.max,
            self@.wf(),
    {
        proof {
            use_type_invariant(self);
        }
        self.max
    }

    /// Stores the maximum if it is positive; else does nothing.
    #[allow(non_snake_case)]
    pub fn SetMax(&mut self, new_val: Finite)
        ensures
            final(self)@ == old(self)@.set_max(new_val.bits()),
            final(self)@.wf(),
    {
        proof {
            use_type_invariant(&*self);
            use_type_invariant(&new_val);
        }
        let zero = Finite::zero();
        if zero.lt(&new_val) {
            self.max = new_val;
        }
    }

    /// The share of the maximum that the value makes up, between zero and
    /// one; `-1.0` while no value is set.
    #[allow(non_snake_case)]
    pub fn Position(&self) -> (position: Finite)
        ensures
            self@.is_position(position.bits()),
            self@.value is None ==> position@ == -unit(),
            self@.value is Some ==> 0 <= position@ <= unit(),
            self@.wf(),
    {
        proof {
            use_type_invariant(self);
        }
        let max = self.max;
        match self.value {
            Some(v) => {
                let current_value = if max.lt(&v) {
                    max
                } else {
                    v
                };
                current_value.fraction_of(&max)
            },
            None => Finite::minus_one(),
        }
    }

    /// The collection of the elements that label the control. The first
    /// request has `discover` find it in the owning document and caches it;
    /// later requests hand out the cached collection and do not call
    /// `discover`.
    #[allow(non_snake_case)]
    pub fn Labels<F: FnOnce(DocumentId) -> NodeListId>(&mut self, discover: F) -> (list:
        NodeListId)
        requires
            old(self)@.labels is None ==> discover.requires((old(self)@.owner_document,)),
        ensures
            final(self)@ == old(self)@.with_labels(Some(list)),
            labels_step(old(self)@.labels, final(self)@.labels, list),
            old(self)@.labels is None ==> discover.ensures((old(self)@.owner_document,), list),
            final(self)@.wf(),
    {
        proof {
            use_type_invariant(&*self);
        }
        match self.labels_node_list.get() {
            Some(list) => list,
            None => {
                let discovered = discover(self.owner_document);
                self.labels_node_list.populate(discovered)
            },
        }
    }

    /// Forgets the cached collection of labels: the document tree calls this
    /// when the labels may have changed.
    pub fn invalidate_labels(&mut self)
        ensures
            final(self)@ == old(self)@.with_labels(None),
            final(self)@.wf(),
    {
        proof {
            use_type_invariant(&*self);
        }
        self.labels_node_list.invalidate();
    }

    /// The document that owns the control.
    pub fn owner_document(&self) -> (document: DocumentId)
        ensures
            document == self@.owner_document,
    {
        self.owner_document
    }

    /// The tag name that the control was created with.
    pub fn local_name(&self) -> (name: &LocalName)
        ensures
            *name == self@.local_name,
    {
        &self.local_name
    }

    /// The namespace prefix that the control was created with.
    pub fn prefix(&self) -> (prefix: &Option<Prefix>)
        ensures
            *prefix == self@.prefix,
    {
        &self.prefix
    }
}

} // verus!
