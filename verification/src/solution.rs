use vstd::prelude::*;
use vstd::std_specs::cmp::PartialEqSpecImpl;

verus! {

/// The explicit failure value: the goal has no derivation.
#[derive(Clone, Copy, Debug, PartialEq, Eq, Structural)]
pub struct NoSolution;

/// Either a value or the failure value.
pub type Fallible<T> = Result<T, NoSolution>;

/// The priority of the clause that a candidate solution came from.
#[derive(Clone, Copy, Debug, PartialEq, Eq, Structural)]
pub enum ClausePriority {
    High,
    Low,
}

/// One entry of a substitution: what a canonical slot is mapped to.
#[derive(Clone, Copy, Debug, PartialEq, Eq, Structural)]
pub enum Parameter {
    /// The canonical slot with this position.
    BoundVar(usize),
    /// A term, by its interned identity.
    Term(u64),
}

/// A canonical substitution: one parameter for each slot of the goal it
/// answers, over `binders` slots of its own.
#[derive(Debug)]
pub struct Substitution {
    pub binders: usize,
    pub parameters: Vec<Parameter>,
}

/// The mathematical value of a [`Substitution`].
pub struct SubstitutionView {
    pub binders: nat,
    pub parameters: Seq<Parameter>,
}

impl View for Substitution {
    type V = SubstitutionView;

    open spec fn view(&self) -> SubstitutionView {
        SubstitutionView { binders: self.binders as nat, parameters: self.parameters@ }
    }
}

/// The substitution that maps each of `binders` slots to itself.
pub open spec fn identity_substitution(binders: nat) -> SubstitutionView {
    SubstitutionView {
        binders,
        parameters: Seq::new(binders, |i: int| Parameter::BoundVar(i as usize)),
    }
}

impl Substitution {
    /// The identity substitution over `binders` slots.
    pub fn trivial(binders: usize) -> (s: Substitution)
        ensures
            s@ == identity_substitution(binders as nat),
    {
        let mut parameters: Vec<Parameter> = Vec::new();
        let mut i: usize = 0;
        while i < binders
            invariant
                i <= binders,
                parameters@.len() == i,
                forall|j: int| 0 <= j < i ==> parameters@[j] == Parameter::BoundVar(j as usize),
            decreases binders - i,
        {
            parameters.push(Parameter::BoundVar(i));
            i = i + 1;
        }
        assert(parameters@ =~= identity_substitution(binders as nat).parameters);
        Substitution { binders, parameters }
    }
}

impl Clone for Substitution {
    fn clone(&self) -> (s: Substitution)
        ensures
            s@ == self@,
    {
        let mut parameters: Vec<Parameter> = Vec::new();
        let mut i: usize = 0;
        while i < self.parameters.len()
            invariant
                i <= self.parameters@.len(),
                parameters@ == self.parameters@.take(i as int),
            decreases self.parameters@.len() - i,
        {
            parameters.push(self.parameters[i]);
            i = i + 1;
            assert(parameters@ =~= self.parameters@.take(i as int));
        }
        assert(self.parameters@.take(i as int) =~= self.parameters@);
        Substitution { binders: self.binders, parameters }
    }
}

impl PartialEq for Substitution {
    fn eq(&self, other: &Substitution) -> (r: bool) {
        if self.binders != other.binders || self.parameters.len() != other.parameters.len() {
            return false;
        }
        let mut i: usize = 0;
        while i < self.parameters.len()
            invariant
                i <= self.parameters@.len(),
                self.parameters@.len() == other.parameters@.len(),
                self.parameters@.take(i as int) == other.parameters@.take(i as int),
            decreases self.parameters@.len() - i,
        {
            if self.parameters[i] != other.parameters[i] {
                assert(self.parameters@[i as int] != other.parameters@[i as int]);
                return false;
            }
            i = i + 1;
            assert(self.parameters@.take(i as int) =~= self.parameters@.take(i - 1).push(
                self.parameters@[i - 1],
            ));
            assert(other.parameters@.take(i as int) =~= other.parameters@.take(i - 1).push(
                other.parameters@[i - 1],
            ));
        }
        assert(self.parameters@.take(i as int) =~= self.parameters@);
        assert(other.parameters@.take(i as int) =~= other.parameters@);
        true
    }
}

impl PartialEqSpecImpl for Substitution {
    open spec fn obeys_eq_spec() -> bool {
        true
    }

    open spec fn eq_spec(&self, other: &Substitution) -> bool {
        self@ == other@
    }
}

/// The answer to a goal that is provable.
#[derive(Debug)]
pub enum Solution {
    /// Exactly one answer, up to the residual constraints, which are held by
    /// their interned identities.
    Unique(Substitution, Vec<u64>),
    /// More than one answer, or too little information to pick one; with a
    /// best guess where there is one.
    Ambig(Option<Substitution>),
}

/// The mathematical value of a [`Solution`].
pub enum SolutionView {
    Unique(SubstitutionView, Seq<u64>),
    Ambig(Option<SubstitutionView>),
}

impl View for Solution {
    type V = SolutionView;

    open spec fn view(&self) -> SolutionView {
        match *self {
            Solution::Unique(subst, constraints) => SolutionView::Unique(subst@, constraints@),
            Solution::Ambig(Some(subst)) => SolutionView::Ambig(Some(subst@)),
            Solution::Ambig(None) => SolutionView::Ambig(None),
        }
    }
}

/// The unique solution that maps each of `binders` slots to itself and
/// leaves no constraint behind.
pub open spec fn identity_solution(binders: nat) -> SolutionView {
    SolutionView::Unique(identity_substitution(binders), Seq::empty())
}

fn clone_constraints(constraints: &Vec<u64>) -> (c: Vec<u64>)
    ensures
        c@ == constraints@,
{
    let mut c: Vec<u64> = Vec::new();
    let mut i: usize = 0;
    while i < constraints.len()
        invariant
            i <= constraints@.len(),
            c@ == constraints@.take(i as int),
        decreases constraints@.len() - i,
    {
        c.push(constraints[i]);
        i = i + 1;
        assert(c@ =~= constraints@.take(i as int));
    }
    assert(constraints@.take(i as int) =~= constraints@);
    c
}

fn same_constraints(a: &Vec<u64>, b: &Vec<u64>) -> (r: bool)
    ensures
        r == (a@ == b@),
{
    if a.len() != b.len() {
        return false;
    }
    let mut i: usize = 0;
    while i < a.len()
        invariant
            i <= a@.len(),
            a@.len() == b@.len(),
            a@.take(i as int) == b@.take(i as int),
        decreases a@.len() - i,
    {
        if a[i] != b[i] {
            assert(a@[i as int] != b@[i as int]);
            return false;
        }
        i = i + 1;
        assert(a@.take(i as int) =~= a@.take(i - 1).push(a@[i - 1]));
        assert(b@.take(i as int) =~= b@.take(i - 1).push(b@[i - 1]));
    }
    assert(a@.take(i as int) =~= a@);
    assert(b@.take(i as int) =~= b@);
    true
}

impl Solution {
    /// The unique solution with the identity substitution over `binders`
    /// slots and no constraints.
    pub fn trivial(binders: usize) -> (s: Solution)
        ensures
            s@ == identity_solution(binders as nat),
    {
        Solution::Unique(Substitution::trivial(binders), Vec::new())
    }

    pub open spec fn spec_is_ambig(&self) -> bool {
        self@ is Ambig
    }

    /// Whether the solution is ambiguous.
    #[verifier::when_used_as_spec(spec_is_ambig)]
    pub fn is_ambig(&self) -> (r: bool)
        ensures
            r == (self@ is Ambig),
    {
        match self {
            Solution::Ambig(_) => true,
            Solution::Unique(_, _) => false,
        }
    }
}

impl Clone for Solution {
    fn clone(&self) -> (s: Solution)
        ensures
            s@ == self@,
    {
        match self {
            Solution::Unique(subst, constraints) => Solution::Unique(
                subst.clone(),
                clone_constraints(constraints),
            ),
            Solution::Ambig(Some(subst)) => Solution::Ambig(Some(subst.clone())),
            Solution::Ambig(None) => Solution::Ambig(None),
        }
    }
}

impl PartialEq for Solution {
    fn eq(&self, other: &Solution) -> (r: bool) {
        match (self, other) {
            (Solution::Unique(s1, c1), Solution::Unique(s2, c2)) => s1 == s2 && same_constraints(
                c1,
                c2,
            ),
            (Solution::Ambig(Some(s1)), Solution::Ambig(Some(s2))) => s1 == s2,
            (Solution::Ambig(None), Solution::Ambig(None)) => true,
            _ => false,
        }
    }
}

impl PartialEqSpecImpl for Solution {
    open spec fn obeys_eq_spec() -> bool {
        true
    }

    open spec fn eq_spec(&self, other: &Solution) -> bool {
        self@ == other@
    }
}

/// The priority of a solution where two are merged: a unique solution goes
/// before an ambiguous one.
pub open spec fn solution_priority(solution: SolutionView) -> nat {
    match solution {
        SolutionView::Unique(_, _) => 1,
        SolutionView::Ambig(_) => 0,
    }
}

/// The better of two solutions.
pub open spec fn better_of(first: SolutionView, second: SolutionView) -> SolutionView {
    if solution_priority(second) > solution_priority(first) {
        second
    } else {
        first
    }
}

/// Picks the solution with the higher priority, and the first of two that
/// have the same.
pub fn better(first: Solution, second: Solution) -> (r: Solution)
    ensures
        r@ == better_of(first@, second@),
{
    if first.is_ambig() && !second.is_ambig() {
        second
    } else {
        first
    }
}

/// The mathematical value of an answer: `None` where the goal is not
/// provable.
pub open spec fn answer_view(answer: Fallible<Solution>) -> Option<SolutionView> {
    match answer {
        Ok(solution) => Some(solution@),
        Err(_) => None,
    }
}

/// Where an answer stands in the order in which tentative answers may
/// advance: no value, then unique, then ambiguous.
pub open spec fn answer_rank(answer: Option<SolutionView>) -> nat {
    match answer {
        None => 0,
        Some(SolutionView::Unique(_, _)) => 1,
        Some(SolutionView::Ambig(_)) => 2,
    }
}

/// Whether `later` is `earlier` or an advance on it: having no value
/// advances to any answer, and any answer to an ambiguous one.
pub open spec fn answer_advances(earlier: Option<SolutionView>, later: Option<SolutionView>)
    -> bool {
    earlier == later || answer_rank(earlier) == 0 || answer_rank(later) == 2
}

/// A copy of an answer.
pub fn clone_answer(answer: &Fallible<Solution>) -> (a: Fallible<Solution>)
    ensures
        answer_view(a) == answer_view(*answer),
{
    match answer {
        Ok(solution) => Ok(solution.clone()),
        Err(_) => Err(NoSolution),
    }
}

/// Whether two answers are the same answer.
pub fn same_answer(a: &Fallible<Solution>, b: &Fallible<Solution>) -> (r: bool)
    ensures
        r == (answer_view(*a) == answer_view(*b)),
{
    match (a, b) {
        (Ok(s1), Ok(s2)) => s1 == s2,
        (Err(_), Err(_)) => true,
        _ => false,
    }
}

/// Whether an answer is an ambiguous solution.
pub fn answer_is_ambig(answer: &Fallible<Solution>) -> (r: bool)
    ensures
        r == (answer_rank(answer_view(*answer)) == 2),
{
    match answer {
        Ok(s) => s.is_ambig(),
        Err(_) => false,
    }
}

/// The tag under which an answer is shown.
pub open spec fn tag_of(answer: Option<SolutionView>) -> Seq<char> {
    match answer {
        None => "error"@,
        Some(SolutionView::Unique(_, _)) => "Unique"@,
        Some(SolutionView::Ambig(_)) => "Ambiguous"@,
    }
}

/// The tag under which `answer` is shown: `Unique`, `Ambiguous`, or `error`
/// for a goal that is not provable.
pub fn answer_tag(answer: &Fallible<Solution>) -> (tag: &'static str)
    ensures
        tag@ == tag_of(answer_view(*answer)),
{
    match answer {
        Ok(Solution::Unique(_, _)) => "Unique",
        Ok(Solution::Ambig(_)) => "Ambiguous",
        Err(_) => "error",
    }
}

/// Merging of two fallible values.
pub trait MergeWith<T>: Sized {
    /// What `merge_with` gives back where at most one side holds a value:
    /// `None` where both hold one.
    spec fn merged_without(self, other: Self) -> Option<Self>;

    /// The two values that `merge_with` hands to the function, where both
    /// sides hold one.
    spec fn merged_pair(self, other: Self) -> Option<(T, T)>;

    /// The value that the result holds, if it holds one.
    spec fn merged_value(self) -> Option<T>;

    /// Keeps the side that holds a value; where both do, the value that `f`
    /// makes of the two; where neither does, the failure of `other`.
    fn merge_with<F>(self, other: Self, f: F) -> (r: Self) where F: FnOnce(T, T) -> T
        requires
            self.merged_pair(other) matches Some(pair) ==> f.requires(pair),
        ensures
            match self.merged_pair(other) {
                Some(pair) => r.merged_value() matches Some(v) && f.ensures(pair, v),
                None => Some(r) == self.merged_without(other),
            },
    ;
}

impl<T> MergeWith<T> for Fallible<T> {
    open spec fn merged_without(self, other: Fallible<T>) -> Option<Fallible<T>> {
        match (self, other) {
            (Err(_), Ok(v)) => Some(Ok(v)),
            (Ok(v), Err(_)) => Some(Ok(v)),
            (Ok(_), Ok(_)) => None,
            (Err(_), Err(e)) => Some(Err(e)),
        }
    }

    open spec fn merged_pair(self, other: Fallible<T>) -> Option<(T, T)> {
        match (self, other) {
            (Ok(v1), Ok(v2)) => Some((v1, v2)),
            _ => None,
        }
    }

    open spec fn merged_value(self) -> Option<T> {
        match self {
            Ok(v) => Some(v),
            Err(_) => None,
        }
    }

    fn merge_with<F>(self, other: Fallible<T>, f: F) -> (r: Fallible<T>) where
        F: FnOnce(T, T) -> T,
     {
        match (self, other) {
            (Err(_), Ok(v)) => Ok(v),
            (Ok(v), Err(_)) => Ok(v),
            (Ok(v1), Ok(v2)) => Ok(f(v1, v2)),
            (Err(_), Err(e)) => Err(e),
        }
    }
}

} // verus!
