//! Subjects, interests and the interest index.
//!
//! A subject is a dot-segmented name that a message carries, such as
//! `orders.eu.new`.  An interest is a pattern over subjects in which the
//! segment `*` stands for any one non-empty segment and a final segment `>`
//! stands for one or more non-empty segments.
use vstd::prelude::*;
use vstd::string::StringSliceAdditionalSpecFns;
use crate::protocol::endpoint::EndpointAddr;
use crate::protocol::table::{lemma_entry_is_row, lemma_row_is_entry, row_index, EpTable};
use crate::util::{bytes_eq, bytes_to_vec};

verus! {

/// The byte that separates segments.
pub const DOT: u8 = 0x2e;

/// The byte of the single-segment wildcard `*`.
pub const STAR: u8 = 0x2a;

/// The byte of the trailing multi-segment wildcard `>`.
pub const TAIL: u8 = 0x3e;

/// The segments held by a vector, each as a sequence of bytes.
pub open spec fn segments_of(segments: Seq<Vec<u8>>) -> Seq<Seq<u8>> {
    segments.map_values(|segment: Vec<u8>| segment@)
}

/// The segments of a dotted name.
///
/// A name with `n` dots has `n + 1` segments, some of which may be empty:
/// the empty name has the one segment `""`, and `a..b` has the segments `a`,
/// `""` and `b`.
pub open spec fn split_dots(name: Seq<u8>) -> Seq<Seq<u8>>
    decreases name.len(),
{
    if name.len() == 0 {
        seq![Seq::<u8>::empty()]
    } else if name.last() == DOT {
        split_dots(name.drop_last()).push(Seq::<u8>::empty())
    } else {
        let head = split_dots(name.drop_last());
        head.drop_last().push(head.last().push(name.last()))
    }
}

/// A dotted name always has at least one segment.
pub proof fn lemma_split_dots_nonempty(name: Seq<u8>)
    ensures
        split_dots(name).len() >= 1,
    decreases name.len(),
{
    if name.len() > 0 {
        lemma_split_dots_nonempty(name.drop_last());
    }
}

/// No segment of a dotted name holds a dot, and the segments joined by dots
/// give the name back.
pub proof fn lemma_split_dots_joins(name: Seq<u8>)
    ensures
        forall|i: int, k: int|
            0 <= i < split_dots(name).len() && 0 <= k < split_dots(name)[i].len()
                ==> split_dots(name)[i][k] != DOT,
        join_dots(split_dots(name)) == name,
    decreases name.len(),
{
    lemma_split_dots_nonempty(name);
    if name.len() == 0 {
        assert(join_dots(split_dots(name)) =~= name);
    } else {
        let front = name.drop_last();
        lemma_split_dots_joins(front);
        lemma_split_dots_nonempty(front);
        let head = split_dots(front);
        if name.last() == DOT {
            let all = head.push(Seq::<u8>::empty());
            assert(all.drop_last() =~= head);
            assert(join_dots(all) =~= join_dots(head).push(DOT) + Seq::<u8>::empty());
            assert(join_dots(all) =~= name);
        } else {
            let grown = head.last().push(name.last());
            let all = head.drop_last().push(grown);
            assert(all.drop_last() =~= head.drop_last());
            assert(all.last() == grown);
            if head.len() == 1 {
                assert(join_dots(head) == head[0]);
                assert(join_dots(all) == grown);
                assert(join_dots(all) =~= name);
            } else {
                assert(join_dots(head) == join_dots(head.drop_last()).push(DOT) + head.last());
                assert(join_dots(all) == join_dots(head.drop_last()).push(DOT) + grown);
                assert(join_dots(all) =~= join_dots(head).push(name.last()));
                assert(join_dots(all) =~= name);
            }
        }
    }
}

/// The segments written one after another with a dot between neighbours.
pub open spec fn join_dots(segments: Seq<Seq<u8>>) -> Seq<u8>
    decreases segments.len(),
{
    if segments.len() == 0 {
        Seq::<u8>::empty()
    } else if segments.len() == 1 {
        segments[0]
    } else {
        join_dots(segments.drop_last()).push(DOT) + segments.last()
    }
}

/// True when one pattern segment accepts one subject segment: `*` accepts
/// every non-empty segment, any other pattern segment accepts itself only.
pub open spec fn atom_matches(atom: Seq<u8>, segment: Seq<u8>) -> bool {
    if atom == seq![STAR] {
        segment.len() > 0
    } else {
        atom == segment
    }
}

/// True when the last segment of `pattern` is the trailing wildcard `>`.
pub open spec fn ends_with_tail(pattern: Seq<Seq<u8>>) -> bool {
    pattern.len() > 0 && pattern.last() == seq![TAIL]
}

/// True when the pattern accepts the subject.
///
/// Without a trailing `>` the two have the same number of segments and each
/// pattern segment accepts the subject segment at its place.  With a trailing
/// `>` the segments before it accept the subject segments at their places,
/// and the subject goes on with one or more segments, none of them empty.
pub open spec fn interest_matches(pattern: Seq<Seq<u8>>, subject: Seq<Seq<u8>>) -> bool {
    if ends_with_tail(pattern) {
        let fixed = pattern.len() - 1;
        &&& subject.len() > fixed
        &&& forall|i: int| 0 <= i < fixed ==> atom_matches(#[trigger] pattern[i], subject[i])
        &&& forall|i: int| fixed <= i < subject.len() ==> (#[trigger] subject[i]).len() > 0
    } else {
        &&& subject.len() == pattern.len()
        &&& forall|i: int|
            0 <= i < pattern.len() ==> atom_matches(#[trigger] pattern[i], subject[i])
    }
}

/// Splits a dotted name into its segments.
pub fn split_segments(name: &[u8]) -> (segments: Vec<Vec<u8>>)
    ensures
        segments_of(segments@) == split_dots(name@),
{
    let mut done: Vec<Vec<u8>> = Vec::new();
    let mut current: Vec<u8> = Vec::new();
    let mut i: usize = 0;
    assert(name@.take(0) =~= Seq::<u8>::empty());
    assert(segments_of(done@).push(current@) =~= seq![Seq::<u8>::empty()]);
    while i < name.len()
        invariant
            i <= name.len(),
            segments_of(done@).push(current@) == split_dots(name@.take(i as int)),
        decreases name.len() - i,
    {
        let byte = name[i];
        let ghost before = name@.take(i as int);
        let ghost after = name@.take(i + 1);
        assert(after.drop_last() =~= before);
        assert(after.last() == byte);
        let ghost head = split_dots(before);
        assert(head.last() == current@);
        assert(head.drop_last() =~= segments_of(done@));
        if byte == DOT {
            let ghost old_done = done@;
            done.push(current);
            current = Vec::new();
            assert(segments_of(done@) =~= head);
        } else {
            current.push(byte);
        }
        i += 1;
    }
    assert(name@.take(name.len() as int) =~= name@);
    let ghost old_done = done@;
    done.push(current);
    assert(segments_of(done@) =~= segments_of(old_done).push(current@));
    done
}

/// A deep copy of a list of segments.
pub fn clone_segments(segments: &Vec<Vec<u8>>) -> (copy: Vec<Vec<u8>>)
    ensures
        segments_of(copy@) == segments_of(segments@),
{
    let mut copy: Vec<Vec<u8>> = Vec::new();
    let mut i: usize = 0;
    while i < segments.len()
        invariant
            i <= segments.len(),
            copy.len() == i,
            forall|k: int| 0 <= k < i ==> copy@[k]@ == segments@[k]@,
        decreases segments.len() - i,
    {
        copy.push(bytes_to_vec(segments[i].as_slice()));
        i += 1;
    }
    assert(segments_of(copy@) =~= segments_of(segments@));
    copy
}

/// Segment-wise equality of two lists of segments.
pub fn segments_eq(a: &Vec<Vec<u8>>, b: &Vec<Vec<u8>>) -> (same: bool)
    ensures
        same == (segments_of(a@) == segments_of(b@)),
{
    if a.len() != b.len() {
        assert(segments_of(a@).len() != segments_of(b@).len());
        return false;
    }
    let mut i: usize = 0;
    while i < a.len()
        invariant
            i <= a.len(),
            a.len() == b.len(),
            forall|k: int| 0 <= k < i ==> a@[k]@ == b@[k]@,
        decreases a.len() - i,
    {
        if !bytes_eq(a[i].as_slice(), b[i].as_slice()) {
            assert(segments_of(a@)[i as int] != segments_of(b@)[i as int]);
            return false;
        }
        i += 1;
    }
    assert(segments_of(a@) =~= segments_of(b@));
    true
}

/// True when the segment is the single byte `byte`.
fn is_single(segment: &Vec<u8>, byte: u8) -> (yes: bool)
    ensures
        yes == (segment@ == seq![byte]),
{
    if segment.len() == 1 && segment[0] == byte {
        assert(segment@ =~= seq![byte]);
        true
    } else {
        assert(seq![byte].len() == 1 && seq![byte][0] == byte);
        false
    }
}

fn atom_accepts(atom: &Vec<u8>, segment: &Vec<u8>) -> (yes: bool)
    ensures
        yes == atom_matches(atom@, segment@),
{
    if is_single(atom, STAR) {
        segment.len() > 0
    } else {
        bytes_eq(atom.as_slice(), segment.as_slice())
    }
}

/// A concrete dot-segmented name attached to a message.
#[derive(Debug)]
pub struct Subject {
    segments: Vec<Vec<u8>>,
}

impl View for Subject {
    type V = Seq<Seq<u8>>;

    closed spec fn view(&self) -> Seq<Seq<u8>> {
        segments_of(self.segments@)
    }
}

impl Subject {
    /// The subject with the given dotted name.
    pub fn new(name: &str) -> (subject: Self)
        ensures
            subject@ == split_dots(name.spec_bytes()),
    {
        Subject { segments: split_segments(name.as_bytes()) }
    }

    /// The subject whose dotted name is the given bytes.
    pub fn from_bytes(name: &[u8]) -> (subject: Self)
        ensures
            subject@ == split_dots(name@),
    {
        Subject { segments: split_segments(name) }
    }

    pub fn clone(&self) -> (copy: Self)
        ensures
            copy@ == self@,
    {
        Subject { segments: clone_segments(&self.segments) }
    }

    pub fn eq(&self, other: &Subject) -> (same: bool)
        ensures
            same == (self@ == other@),
    {
        segments_eq(&self.segments, &other.segments)
    }
}

/// A pattern over subjects.
#[derive(Debug)]
pub struct Interest {
    segments: Vec<Vec<u8>>,
}

impl View for Interest {
    type V = Seq<Seq<u8>>;

    closed spec fn view(&self) -> Seq<Seq<u8>> {
        segments_of(self.segments@)
    }
}

impl Interest {
    /// The interest with the given dotted pattern.
    pub fn new(pattern: &str) -> (interest: Self)
        ensures
            interest@ == split_dots(pattern.spec_bytes()),
    {
        Interest { segments: split_segments(pattern.as_bytes()) }
    }

    /// The interest whose dotted pattern is the given bytes.
    pub fn from_bytes(pattern: &[u8]) -> (interest: Self)
        ensures
            interest@ == split_dots(pattern@),
    {
        Interest { segments: split_segments(pattern) }
    }

    pub fn clone(&self) -> (copy: Self)
        ensures
            copy@ == self@,
    {
        Interest { segments: clone_segments(&self.segments) }
    }

    pub fn eq(&self, other: &Interest) -> (same: bool)
        ensures
            same == (self@ == other@),
    {
        segments_eq(&self.segments, &other.segments)
    }

    /// True when this pattern accepts the subject.
    #[verifier::loop_isolation(false)]
    pub fn matches(&self, subject: &Subject) -> (yes: bool)
        ensures
            yes == interest_matches(self@, subject@),
    {
        let pattern = &self.segments;
        let name = &subject.segments;
        let n = pattern.len();
        let m = name.len();
        let tail = n > 0 && is_single(&pattern[n - 1], TAIL);
        assert(tail == ends_with_tail(self@));
        let fixed: usize = if tail { n - 1 } else { n };
        if tail {
            if m <= fixed {
                return false;
            }
        } else if m != n {
            return false;
        }
        let mut i: usize = 0;
        while i < fixed
            invariant
                i <= fixed <= n,
                fixed <= m,
                n == pattern.len(),
                m == name.len(),
                self@ == segments_of(pattern@),
                subject@ == segments_of(name@),
                forall|k: int| 0 <= k < i ==> atom_matches(#[trigger] self@[k], subject@[k]),
            decreases fixed - i,
        {
            if !atom_accepts(&pattern[i], &name[i]) {
                assert(!atom_matches(self@[i as int], subject@[i as int]));
                assert(!interest_matches(self@, subject@));
                return false;
            }
            i += 1;
        }
        if tail {
            let mut j: usize = fixed;
            while j < m
                invariant
                    fixed <= j <= m,
                    m == name.len(),
                    subject@ == segments_of(name@),
                    forall|k: int| fixed <= k < j ==> (#[trigger] subject@[k]).len() > 0,
                decreases m - j,
            {
                if name[j].len() == 0 {
                    assert(subject@[j as int].len() == 0);
                    assert(!interest_matches(self@, subject@));
                    return false;
                }
                j += 1;
            }
        }
        true
    }
}

/// The interests held by a vector, each as its segments.
pub open spec fn interests_of(interests: Seq<Interest>) -> Seq<Seq<Seq<u8>>> {
    interests.map_values(|interest: Interest| interest@)
}

/// True when one of the interests accepts the subject.
pub open spec fn any_interest_matches(interests: Seq<Seq<Seq<u8>>>, subject: Seq<Seq<u8>>) -> bool {
    exists|i: int| 0 <= i < interests.len() && interest_matches(#[trigger] interests[i], subject)
}

/// True when one of the interests accepts one of the subjects.
pub open spec fn any_subject_matches(
    interests: Seq<Seq<Seq<u8>>>,
    subjects: Seq<Seq<Seq<u8>>>,
) -> bool {
    exists|k: int| 0 <= k < subjects.len() && any_interest_matches(interests, #[trigger] subjects[k])
}

/// The interests of each endpoint.
pub type InterestIndex = Map<EndpointAddr, Seq<Seq<Seq<u8>>>>;

/// The endpoints with an interest that accepts the subject.
pub open spec fn subscribers(index: InterestIndex, subject: Seq<Seq<u8>>) -> Set<EndpointAddr> {
    Set::new(|ep: EndpointAddr| index.contains_key(ep) && any_interest_matches(index[ep], subject))
}

/// The endpoints with an interest that accepts one of the subjects: the union
/// of the subscribers of each subject.
pub open spec fn recipients(
    index: InterestIndex,
    subjects: Seq<Seq<Seq<u8>>>,
) -> Set<EndpointAddr> {
    Set::new(|ep: EndpointAddr| index.contains_key(ep) && any_subject_matches(index[ep], subjects))
}

/// The recipients of a list of subjects are the subscribers of its members.
pub proof fn lemma_recipients_is_union(
    index: InterestIndex,
    subjects: Seq<Seq<Seq<u8>>>,
    ep: EndpointAddr,
)
    ensures
        recipients(index, subjects).contains(ep) <==> exists|k: int|
            0 <= k < subjects.len() && subscribers(index, #[trigger] subjects[k]).contains(ep),
{
    if recipients(index, subjects).contains(ep) {
        let k = choose|k: int|
            0 <= k < subjects.len() && any_interest_matches(index[ep], #[trigger] subjects[k]);
        assert(subscribers(index, subjects[k]).contains(ep));
    }
    if exists|k: int| 0 <= k < subjects.len()
        && subscribers(index, #[trigger] subjects[k]).contains(ep) {
        let k = choose|k: int|
            0 <= k < subjects.len() && subscribers(index, #[trigger] subjects[k]).contains(ep);
        assert(any_interest_matches(index[ep], subjects[k]));
    }
}

/// The index after `ep` has registered `interest`.  Registering an interest
/// twice changes nothing.
pub open spec fn with_interest(
    index: InterestIndex,
    interest: Seq<Seq<u8>>,
    ep: EndpointAddr,
) -> InterestIndex {
    if !index.contains_key(ep) {
        index.insert(ep, seq![interest])
    } else if index[ep].contains(interest) {
        index
    } else {
        index.insert(ep, index[ep].push(interest))
    }
}

/// The index after `ep` has registered each of `interests` in turn.
pub open spec fn with_interests(
    index: InterestIndex,
    interests: Seq<Seq<Seq<u8>>>,
    ep: EndpointAddr,
) -> InterestIndex
    decreases interests.len(),
{
    if interests.len() == 0 {
        index
    } else {
        with_interest(with_interests(index, interests.drop_last(), ep), interests.last(), ep)
    }
}

/// Registering interests for `ep` touches the row of `ep` only.
pub proof fn lemma_with_interests_frame(
    index: InterestIndex,
    interests: Seq<Seq<Seq<u8>>>,
    ep: EndpointAddr,
)
    requires
        index.contains_key(ep),
    ensures
        with_interests(index, interests, ep).dom() == index.dom(),
        forall|other: EndpointAddr|
            other != ep && index.contains_key(other)
                ==> #[trigger] with_interests(index, interests, ep)[other]
                == index[other],
    decreases interests.len(),
{
    if interests.len() > 0 {
        lemma_with_interests_frame(index, interests.drop_last(), ep);
        let before = with_interests(index, interests.drop_last(), ep);
        assert(with_interest(before, interests.last(), ep).dom() =~= before.dom());
    }
}

/// Addresses in strictly ascending order.
pub open spec fn ascending_addrs(addrs: Seq<EndpointAddr>) -> bool {
    forall|i: int, j: int| 0 <= i < j < addrs.len() ==> addrs[i].bits < addrs[j].bits
}

/// A deep copy of a list of interests.
pub fn clone_interests(interests: &Vec<Interest>) -> (copy: Vec<Interest>)
    ensures
        interests_of(copy@) == interests_of(interests@),
{
    let mut copy: Vec<Interest> = Vec::new();
    let mut i: usize = 0;
    while i < interests.len()
        invariant
            i <= interests.len(),
            copy.len() == i,
            forall|k: int| 0 <= k < i ==> copy@[k]@ == interests@[k]@,
        decreases interests.len() - i,
    {
        copy.push(interests[i].clone());
        i += 1;
    }
    assert(interests_of(copy@) =~= interests_of(interests@));
    copy
}

/// True when the list holds the interest.
pub fn holds_interest(interests: &Vec<Interest>, interest: &Interest) -> (yes: bool)
    ensures
        yes == interests_of(interests@).contains(interest@),
{
    let mut i: usize = 0;
    while i < interests.len()
        invariant
            i <= interests.len(),
            forall|k: int| 0 <= k < i ==> interests_of(interests@)[k] != interest@,
        decreases interests.len() - i,
    {
        if interests[i].eq(interest) {
            assert(interests_of(interests@)[i as int] == interest@);
            return true;
        }
        i += 1;
    }
    false
}

/// True when the list holds no interest twice.
pub fn is_duplicate_free(interests: &Vec<Interest>) -> (yes: bool)
    ensures
        yes == interests_of(interests@).no_duplicates(),
{
    let ghost all = interests_of(interests@);
    let mut i: usize = 0;
    while i < interests.len()
        invariant
            i <= interests.len(),
            all == interests_of(interests@),
            forall|a: int, b: int| 0 <= a < b < i ==> all[a] != all[b],
        decreases interests.len() - i,
    {
        let mut j: usize = 0;
        while j < i
            invariant
                j <= i < interests.len(),
                all == interests_of(interests@),
                forall|a: int| 0 <= a < j ==> all[a] != all[i as int],
            decreases i - j,
        {
            if interests[j].eq(&interests[i]) {
                assert(all[j as int] == all[i as int]);
                return false;
            }
            j += 1;
        }
        i += 1;
    }
    true
}

/// True when one of the interests accepts the subject.
pub fn accepts_subject(interests: &Vec<Interest>, subject: &Subject) -> (yes: bool)
    ensures
        yes == any_interest_matches(interests_of(interests@), subject@),
{
    let mut i: usize = 0;
    while i < interests.len()
        invariant
            i <= interests.len(),
            forall|k: int|
                0 <= k < i ==> !interest_matches(#[trigger] interests_of(interests@)[k], subject@),
        decreases interests.len() - i,
    {
        if interests[i].matches(subject) {
            assert(interest_matches(interests_of(interests@)[i as int], subject@));
            return true;
        }
        i += 1;
    }
    false
}

/// True when one of the interests accepts one of the subjects.
pub fn accepts_any_subject(interests: &Vec<Interest>, subjects: &Vec<Subject>) -> (yes: bool)
    ensures
        yes == any_subject_matches(
            interests_of(interests@),
            subjects@.map_values(|subject: Subject| subject@),
        ),
{
    let ghost names = subjects@.map_values(|subject: Subject| subject@);
    let mut k: usize = 0;
    while k < subjects.len()
        invariant
            k <= subjects.len(),
            names == subjects@.map_values(|subject: Subject| subject@),
            forall|j: int|
                0 <= j < k ==> !any_interest_matches(interests_of(interests@), #[trigger] names[j]),
        decreases subjects.len() - k,
    {
        if accepts_subject(interests, &subjects[k]) {
            assert(any_interest_matches(interests_of(interests@), names[k as int]));
            return true;
        }
        k += 1;
    }
    false
}

/// True when one of the first `upto` rows belongs to `ep` and accepts one of
/// the subjects.
pub open spec fn accepted_before(
    rows: Seq<(EndpointAddr, Vec<Interest>)>,
    upto: int,
    subjects: Seq<Seq<Seq<u8>>>,
    ep: EndpointAddr,
) -> bool {
    exists|r: int|
        0 <= r < upto && (#[trigger] rows[r]).0 == ep && any_subject_matches(
            interests_of(rows[r].1@),
            subjects,
        )
}

/// The interest index of a topic: which endpoint has registered which
/// interests.
///
/// The index is kept by endpoint, in address order, and each endpoint's
/// interests are kept in the order in which they were registered.
#[derive(Debug)]
pub struct InterestMap {
    pub raw: EpTable<Vec<Interest>>,
}

impl View for InterestMap {
    type V = InterestIndex;

    open spec fn view(&self) -> InterestIndex {
        Map::new(
            |ep: EndpointAddr| self.raw@.contains_key(ep),
            |ep: EndpointAddr| interests_of(self.raw@[ep]@),
        )
    }
}

impl InterestMap {
    /// The rows are in address order, and no endpoint holds an interest twice.
    pub open spec fn wf(&self) -> bool {
        &&& self.raw.wf()
        &&& forall|ep: EndpointAddr|
            self.raw@.contains_key(ep) ==> (#[trigger] interests_of(self.raw@[ep]@)).no_duplicates()
    }

    pub fn new() -> (index: Self)
        ensures
            index.wf(),
            index@ == Map::<EndpointAddr, Seq<Seq<Seq<u8>>>>::empty(),
    {
        let index = InterestMap { raw: EpTable::new() };
        assert(index@ =~= Map::<EndpointAddr, Seq<Seq<Seq<u8>>>>::empty());
        index
    }

    /// Wraps a table of interests by endpoint.
    pub fn from_raw(raw: EpTable<Vec<Interest>>) -> (index: Self)
        ensures
            index.raw == raw,
    {
        InterestMap { raw }
    }

    /// The interests of `ep`, if it has registered any.
    pub fn interest_of(&self, ep: EndpointAddr) -> (interests: Option<&Vec<Interest>>)
        requires
            self.wf(),
        ensures
            interests is Some <==> self@.contains_key(ep),
            interests matches Some(list) ==> interests_of(list@) == self@[ep],
    {
        self.raw.get(ep)
    }

    /// Registers `interest` for `ep`.
    pub fn insert(&mut self, interest: Interest, ep: EndpointAddr)
        requires
            old(self).wf(),
        ensures
            final(self).wf(),
            final(self)@ == with_interest(old(self)@, interest@, ep),
    {
        match self.raw.position(ep) {
            Some(i) => {
                if !holds_interest(self.raw.value_at(i), &interest) {
                    let ghost before = interests_of(self.raw.rows()[i as int].1@);
                    let list = self.raw.value_at_mut(i);
                    list.push(interest);
                    proof {
                        let after = interests_of(self.raw@[ep]@);
                        assert(after =~= before.push(interest@));
                        assert(after.no_duplicates());
                        assert(self@ =~= with_interest(old(self)@, interest@, ep));
                        assert forall|other: EndpointAddr|
                            self.raw@.contains_key(other) implies (#[trigger] interests_of(
                            self.raw@[other]@,
                        )).no_duplicates() by {
                            if other != ep {
                                assert(self.raw@[other] == old(self).raw@[other]);
                            }
                        }
                    }
                } else {
                    assert(self@ =~= with_interest(old(self)@, interest@, ep));
                }
            },
            None => {
                let mut list: Vec<Interest> = Vec::new();
                list.push(interest);
                proof {
                    assert(interests_of(list@) =~= seq![interest@]);
                }
                self.raw.insert(ep, list);
                proof {
                    assert(self@ =~= with_interest(old(self)@, interest@, ep));
                    assert forall|other: EndpointAddr|
                        self.raw@.contains_key(other) implies (#[trigger] interests_of(
                        self.raw@[other]@,
                    )).no_duplicates() by {
                        if other != ep {
                            assert(self.raw@[other] == old(self).raw@[other]);
                        }
                    }
                }
            },
        }
    }

    /// Registers each of `interests` for `ep`, in their order.
    pub fn insert_all(&mut self, interests: &Vec<Interest>, ep: EndpointAddr)
        requires
            old(self).wf(),
        ensures
            final(self).wf(),
            final(self)@ == with_interests(old(self)@, interests_of(interests@), ep),
    {
        let ghost all = interests_of(interests@);
        let mut i: usize = 0;
        while i < interests.len()
            invariant
                i <= interests.len(),
                all == interests_of(interests@),
                self.wf(),
                self@ == with_interests(old(self)@, all.take(i as int), ep),
            decreases interests.len() - i,
        {
            self.insert(interests[i].clone(), ep);
            i += 1;
            assert(all.take(i as int).drop_last() =~= all.take(i - 1));
            assert(all.take(i as int).last() == interests@[i - 1]@);
        }
        assert(all.take(interests.len() as int) =~= all);
    }

    /// Forgets `ep` and all its interests.
    pub fn delete(&mut self, ep: EndpointAddr)
        requires
            old(self).wf(),
        ensures
            final(self).wf(),
            final(self)@ == old(self)@.remove(ep),
    {
        self.raw.remove(ep);
        assert(self@ =~= old(self)@.remove(ep));
    }

    /// Makes sure that `ep` has a row, with no interests if it had none.
    pub fn touch(&mut self, ep: EndpointAddr)
        requires
            old(self).wf(),
        ensures
            final(self).wf(),
            final(self)@ == if old(self)@.contains_key(ep) {
                old(self)@
            } else {
                old(self)@.insert(ep, Seq::empty())
            },
    {
        if !self.raw.contains_key(ep) {
            let list: Vec<Interest> = Vec::new();
            assert(interests_of(list@) =~= Seq::<Seq<Seq<u8>>>::empty());
            self.raw.insert(ep, list);
            proof {
                assert(self@ =~= old(self)@.insert(ep, Seq::empty()));
                assert forall|other: EndpointAddr|
                    self.raw@.contains_key(other) implies (#[trigger] interests_of(
                    self.raw@[other]@,
                )).no_duplicates() by {
                    if other != ep {
                        assert(self.raw@[other] == old(self).raw@[other]);
                    }
                }
            }
        } else {
            assert(self@ =~= old(self)@);
        }
    }

    /// Every endpoint with an interest that accepts the subject, in address
    /// order.
    pub fn find(&self, subject: &Subject) -> (found: Vec<EndpointAddr>)
        requires
            self.wf(),
        ensures
            ascending_addrs(found@),
            found@.to_set() == subscribers(self@, subject@),
    {
        let mut one: Vec<Subject> = Vec::new();
        one.push(subject.clone());
        let found = self.find_any(&one);
        proof {
            let names = one@.map_values(|subject: Subject| subject@);
            assert(names.len() == 1 && names[0] == subject@);
            assert(recipients(self@, names) =~= subscribers(self@, subject@)) by {
                assert forall|ep: EndpointAddr|
                    recipients(self@, names).contains(ep) == subscribers(self@, subject@).contains(
                        ep,
                    ) by {
                    if subscribers(self@, subject@).contains(ep) {
                        assert(any_interest_matches(self@[ep], names[0]));
                    }
                }
            }
        }
        found
    }

    /// Every endpoint with an interest that accepts one of the subjects, in
    /// address order.
    pub fn find_any(&self, subjects: &Vec<Subject>) -> (found: Vec<EndpointAddr>)
        requires
            self.wf(),
        ensures
            ascending_addrs(found@),
            found@.to_set() == recipients(self@, subjects@.map_values(|subject: Subject| subject@)),
    {
        let ghost names = subjects@.map_values(|subject: Subject| subject@);
        let mut found: Vec<EndpointAddr> = Vec::new();
        let n = self.raw.len();
        let ghost rows = self.raw.rows();
        let mut i: usize = 0;
        while i < n
            invariant
                i <= n,
                n == rows.len(),
                rows == self.raw.rows(),
                names == subjects@.map_values(|subject: Subject| subject@),
                self.wf(),
                ascending_addrs(found@),
                forall|k: int| 0 <= k < found.len()
                    ==> accepted_before(rows, i as int, names, #[trigger] found@[k]),
                forall|r: int|
                    0 <= r < i && any_subject_matches(interests_of((#[trigger] rows[r]).1@), names)
                        ==> found@.contains(rows[r].0),
            decreases n - i,
        {
            if accepts_any_subject(self.raw.value_at(i), subjects) {
                let addr = self.raw.key_at(i);
                proof {
                    assert forall|k: int| 0 <= k < found.len() implies found@[k].bits < addr.bits by {
                        assert(accepted_before(rows, i as int, names, found@[k]));
                        let r = choose|r: int|
                            0 <= r < i && (#[trigger] rows[r]).0 == found@[k] && any_subject_matches(
                                interests_of(rows[r].1@),
                                names,
                            );
                        assert(rows[r].0.bits < rows[i as int].0.bits);
                    }
                }
                let ghost before = found@;
                found.push(addr);
                proof {
                    assert forall|k: int| 0 <= k < found.len() implies accepted_before(
                        rows,
                        i + 1,
                        names,
                        #[trigger] found@[k],
                    ) by {
                        if k < before.len() {
                            assert(accepted_before(rows, i as int, names, before[k]));
                            let r = choose|r: int|
                                0 <= r < i && (#[trigger] rows[r]).0 == before[k]
                                    && any_subject_matches(interests_of(rows[r].1@), names);
                            assert(rows[r].0 == found@[k]);
                        } else {
                            assert(rows[i as int].0 == found@[k]);
                        }
                    }
                    assert forall|r: int|
                        0 <= r < i + 1 && any_subject_matches(
                            interests_of((#[trigger] rows[r]).1@),
                            names,
                        ) implies found@.contains(rows[r].0) by {
                        if r < i {
                            let k = choose|k: int| 0 <= k < before.len() && before[k] == rows[r].0;
                            assert(found@[k] == rows[r].0);
                        } else {
                            assert(found@[found.len() - 1] == rows[r].0);
                        }
                    }
                }
            } else {
                proof {
                    assert forall|k: int| 0 <= k < found.len() implies accepted_before(
                        rows,
                        i + 1,
                        names,
                        #[trigger] found@[k],
                    ) by {
                        assert(accepted_before(rows, i as int, names, found@[k]));
                        let r = choose|r: int|
                            0 <= r < i && (#[trigger] rows[r]).0 == found@[k] && any_subject_matches(
                                interests_of(rows[r].1@),
                                names,
                            );
                        assert(0 <= r < i + 1);
                    }
                }
            }
            i += 1;
        }
        proof {
            assert(found@.to_set() =~= recipients(self@, names)) by {
                assert forall|ep: EndpointAddr|
                    found@.to_set().contains(ep) == recipients(self@, names).contains(ep) by {
                    if found@.contains(ep) {
                        let k = choose|k: int| 0 <= k < found.len() && found@[k] == ep;
                        assert(accepted_before(rows, n as int, names, found@[k]));
                        let r = choose|r: int|
                            0 <= r < n && (#[trigger] rows[r]).0 == found@[k] && any_subject_matches(
                                interests_of(rows[r].1@),
                                names,
                            );
                        lemma_row_is_entry(rows, r);
                    }
                    if recipients(self@, names).contains(ep) {
                        lemma_entry_is_row(rows, ep);
                        let r = row_index(rows, ep);
                        assert(any_subject_matches(interests_of(rows[r].1@), names));
                    }
                }
            }
        }
        found
    }

    /// True when the index is well formed.
    pub fn is_valid(&self) -> (yes: bool)
        ensures
            yes == self.wf(),
    {
        if !self.raw.is_ordered() {
            return false;
        }
        let n = self.raw.len();
        let ghost rows = self.raw.rows();
        let mut i: usize = 0;
        while i < n
            invariant
                i <= n,
                n == rows.len(),
                rows == self.raw.rows(),
                self.raw.wf(),
                forall|r: int| 0 <= r < i ==> interests_of((#[trigger] rows[r]).1@).no_duplicates(),
            decreases n - i,
        {
            if !is_duplicate_free(self.raw.value_at(i)) {
                proof {
                    lemma_row_is_entry(rows, i as int);
                    assert(self.raw@.contains_key(rows[i as int].0));
                    assert(!interests_of(self.raw@[rows[i as int].0]@).no_duplicates());
                }
                return false;
            }
            i += 1;
        }
        proof {
            assert forall|ep: EndpointAddr| self.raw@.contains_key(ep) implies (#[trigger] interests_of(
                self.raw@[ep]@,
            )).no_duplicates() by {
                lemma_entry_is_row(rows, ep);
            }
        }
        true
    }

    /// A deep copy of the index.
    pub fn duplicate(&self) -> (copy: Self)
        requires
            self.wf(),
        ensures
            copy.wf(),
            copy@ == self@,
    {
        let mut copy = InterestMap::new();
        let n = self.raw.len();
        let ghost rows = self.raw.rows();
        let mut i: usize = 0;
        while i < n
            invariant
                i <= n,
                n == rows.len(),
                rows == self.raw.rows(),
                self.wf(),
                copy.wf(),
                forall|ep: EndpointAddr|
                    copy@.contains_key(ep) <==> exists|r: int| 0 <= r < i
                        && (#[trigger] rows[r]).0 == ep,
                forall|r: int| 0 <= r < i ==> copy@[(#[trigger] rows[r]).0] == interests_of(rows[r].1@),
            decreases n - i,
        {
            let addr = self.raw.key_at(i);
            let list = clone_interests(self.raw.value_at(i));
            proof {
                lemma_row_is_entry(rows, i as int);
                assert(interests_of(self.raw@[addr]@).no_duplicates());
            }
            let ghost before = copy@;
            copy.raw.insert(addr, list);
            proof {
                assert(copy@ =~= before.insert(addr, interests_of(list@)));
                assert forall|other: EndpointAddr|
                    copy.raw@.contains_key(other) implies (#[trigger] interests_of(
                    copy.raw@[other]@,
                )).no_duplicates() by {
                    if other != addr {
                        assert(before.contains_key(other));
                        assert(interests_of(copy.raw@[other]@) == before[other]);
                    }
                }
                assert forall|ep: EndpointAddr|
                    copy@.contains_key(ep) <==> exists|r: int|
                        0 <= r < i + 1 && (#[trigger] rows[r]).0 == ep by {
                    if before.contains_key(ep) {
                        let r = choose|r: int| 0 <= r < i && (#[trigger] rows[r]).0 == ep;
                        assert(0 <= r < i + 1 && rows[r].0 == ep);
                    }
                    if ep == addr {
                        assert(rows[i as int].0 == ep);
                    }
                }
                assert forall|r: int| 0 <= r < i + 1 implies copy@[(#[trigger] rows[r]).0]
                    == interests_of(rows[r].1@) by {
                    if r < i {
                        assert(rows[r].0.bits < rows[i as int].0.bits);
                    }
                }
            }
            i += 1;
        }
        proof {
            assert(copy@ =~= self@) by {
                assert forall|ep: EndpointAddr| copy@.contains_key(ep) == self@.contains_key(ep) by {
                    if copy@.contains_key(ep) {
                        let r = choose|r: int| 0 <= r < n && (#[trigger] rows[r]).0 == ep;
                        lemma_row_is_entry(rows, r);
                    }
                    if self@.contains_key(ep) {
                        lemma_entry_is_row(rows, ep);
                    }
                }
                assert forall|ep: EndpointAddr| copy@.contains_key(ep)
                    implies copy@[ep] == self@[ep] by {
                    let r = choose|r: int| 0 <= r < n && (#[trigger] rows[r]).0 == ep;
                    lemma_row_is_entry(rows, r);
                }
            }
        }
        copy
    }
}

} // verus!
