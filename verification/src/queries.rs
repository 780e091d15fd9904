//! Looking things up: blocks, peers, and the signatures under votes.
use crate::bitfield::{Bitfield, MAX_BITFIELD_SIZE};
use crate::block::{Block, BlockEntry, Entry};
use crate::dict;
use crate::knowledge::PeerKnowledge;
use crate::lists;
use crate::messages::{IndirectSignedApprovalVoteV2, ValidatorSignature};
use crate::primitives::{BlockHash, BlockNumber, CandidateIndex, PeerId, ValidatorIndex};
use crate::state::{Node, PeerEntry, State};
use vstd::prelude::*;

verus! {

/// For each validator, the block and the candidates that a vote of it approves, and its signature.
pub type Endorsements = Map<ValidatorIndex, (BlockHash, Seq<CandidateIndex>, ValidatorSignature)>;

/// What a list of signatures with the candidates that they cover holds.
pub open spec fn endorsements_in(
    list: Seq<(ValidatorIndex, (BlockHash, Vec<CandidateIndex>, ValidatorSignature))>,
) -> Seq<(ValidatorIndex, (BlockHash, Seq<CandidateIndex>, ValidatorSignature))> {
    list.map_values(
        |e: (ValidatorIndex, (BlockHash, Vec<CandidateIndex>, ValidatorSignature))|
            (e.0, (e.1.0, e.1.1@, e.1.2)),
    )
}

/// With the signatures of those votes about a block that approve a candidate.
pub open spec fn endorsed_by_votes(
    found: Endorsements,
    hash: BlockHash,
    candidate: CandidateIndex,
    votes: Seq<IndirectSignedApprovalVoteV2>,
) -> Endorsements
    decreases votes.len(),
{
    if votes.len() == 0 {
        found
    } else {
        let rest = endorsed_by_votes(found, hash, candidate, votes.drop_last());
        let vote = votes.last();
        if vote.candidate_indices.has(candidate as int) {
            rest.insert(vote.validator, (hash, vote.candidate_indices.ones(), vote.signature))
        } else {
            rest
        }
    }
}

/// With the signatures of those votes about a block that approve a candidate, entry after entry.
pub open spec fn endorsed_by_entries(
    found: Endorsements,
    hash: BlockHash,
    candidate: CandidateIndex,
    entries: Seq<Entry>,
) -> Endorsements
    decreases entries.len(),
{
    if entries.len() == 0 {
        found
    } else {
        endorsed_by_votes(
            endorsed_by_entries(found, hash, candidate, entries.drop_last()),
            hash,
            candidate,
            entries.last().approvals,
        )
    }
}

impl Node {
    /// The signatures of the votes that approve one of some candidates, by validator.
    pub open spec fn endorsements(self, requests: Seq<(BlockHash, CandidateIndex)>) -> Endorsements
        decreases requests.len(),
    {
        if requests.len() == 0 {
            Endorsements::empty()
        } else {
            let rest = self.endorsements(requests.drop_last());
            let (hash, candidate) = requests.last();
            if self.has_block(hash) {
                endorsed_by_entries(rest, hash, candidate, self.block(hash).entries)
            } else {
                rest
            }
        }
    }
}

/// Notes the signature of a vote.
fn add_endorsement(
    list: &mut Vec<(ValidatorIndex, (BlockHash, Vec<CandidateIndex>, ValidatorSignature))>,
    hash: BlockHash,
    vote: &IndirectSignedApprovalVoteV2,
)
    requires
        dict::keys_unique(endorsements_in(old(list)@)),
    ensures
        dict::keys_unique(endorsements_in(final(list)@)),
        dict::dict(endorsements_in(final(list)@)) == dict::dict(endorsements_in(old(list)@)).insert(
            vote.validator,
            (hash, vote.candidate_indices.ones(), vote.signature),
        ),
{
    let ghost start = endorsements_in(list@);
    let ghost value = (hash, vote.candidate_indices.ones(), vote.signature);
    let candidates = vote.candidate_indices.iter_ones();
    let mut i: usize = 0;
    while i < list.len() && list[i].0 != vote.validator
        invariant
            i <= list.len(),
            start == endorsements_in(list@),
            forall|j: int| 0 <= j < i ==> #[trigger] start[j].0 != vote.validator,
        decreases list.len() - i,
    {
        assert(start[i as int].0 == list@[i as int].0);
        i += 1;
    }
    if i < list.len() {
        proof {
            assert(start[i as int].0 == list@[i as int].0);
            dict::lemma_dict_update(start, i as int, value);
        }
        list.set(i, (vote.validator, (hash, candidates, vote.signature)));
        assert(endorsements_in(list@) =~= start.update(i as int, (vote.validator, value)));
    } else {
        proof {
            dict::lemma_dict_push(start, vote.validator, value);
        }
        list.push((vote.validator, (hash, candidates, vote.signature)));
        assert(endorsements_in(list@) =~= start.push((vote.validator, value)));
    }
}

impl BlockEntry {
    /// Notes the signatures of those votes that approve a candidate.
    fn add_endorsements(
        &self,
        list: &mut Vec<(ValidatorIndex, (BlockHash, Vec<CandidateIndex>, ValidatorSignature))>,
        hash: BlockHash,
        candidate: CandidateIndex,
    )
        requires
            dict::keys_unique(endorsements_in(old(list)@)),
        ensures
            dict::keys_unique(endorsements_in(final(list)@)),
            dict::dict(endorsements_in(final(list)@)) == endorsed_by_entries(
                dict::dict(endorsements_in(old(list)@)),
                hash,
                candidate,
                self@.entries,
            ),
    {
        let ghost start = dict::dict(endorsements_in(list@));
        let ghost entries = self@.entries;
        let mut k: usize = 0;
        assert(entries.take(0) =~= Seq::empty());
        while k < self.approval_entries.len()
            invariant
                k <= self.approval_entries.len(),
                entries == self@.entries,
                dict::keys_unique(endorsements_in(list@)),
                dict::dict(endorsements_in(list@)) == endorsed_by_entries(
                    start,
                    hash,
                    candidate,
                    entries.take(k as int),
                ),
            decreases self.approval_entries.len() - k,
        {
            let votes = &self.approval_entries[k].approvals;
            let ghost middle = dict::dict(endorsements_in(list@));
            proof {
                assert(entries[k as int].approvals == votes@);
                assert(entries.take(k + 1).drop_last() =~= entries.take(k as int));
                assert(entries.take(k + 1).last() == entries[k as int]);
                assert(votes@.take(0) =~= Seq::empty());
            }
            let mut i: usize = 0;
            while i < votes.len()
                invariant
                    i <= votes.len(),
                    dict::keys_unique(endorsements_in(list@)),
                    dict::dict(endorsements_in(list@)) == endorsed_by_votes(
                        middle,
                        hash,
                        candidate,
                        votes@.take(i as int),
                    ),
                decreases votes.len() - i,
            {
                proof {
                    assert(votes@.take(i + 1).drop_last() =~= votes@.take(i as int));
                    assert(votes@.take(i + 1).last() == votes@[i as int]);
                }
                if votes[i].candidate_indices.bit_at(candidate) {
                    add_endorsement(list, hash, &votes[i]);
                }
                i += 1;
            }
            assert(votes@.take(i as int) =~= votes@);
            k += 1;
        }
        assert(entries.take(k as int) =~= entries);
    }

    /// What a peer that is aware of the block is known to have.
    pub fn peer_knowledge(&self, peer: PeerId) -> (found: Option<&PeerKnowledge>)
        requires
            self.wf(),
        ensures
            found is Some <==> self@.aware(peer),
            found matches Some(knowledge) ==> knowledge.wf() && knowledge@ == self@.memory(peer),
    {
        match self.peer_position(peer) {
            Some(i) => {
                assert(self@.known_by[i as int].1 == self.known_by@[i as int].1@);
                Some(&self.known_by[i].1)
            },
            None => None,
        }
    }
}

/// Picks the hash of a block with a number.
pub open spec fn hash_at(number: BlockNumber) -> spec_fn((BlockHash, Block)) -> Option<BlockHash> {
    |block: (BlockHash, Block)|
        if block.1.number == number {
            Some(block.0)
        } else {
            None
        }
}

impl State {
    /// The signatures of the votes that approve one of some candidates, one for each validator, with
    /// the block and the candidates that they are for.
    pub fn get_approval_signatures(&self, requests: &Vec<(BlockHash, CandidateIndex)>) -> (list: Vec<
        (ValidatorIndex, (BlockHash, Vec<CandidateIndex>, ValidatorSignature)),
    >)
        requires
            self.parts_wf(),
        ensures
            dict::keys_unique(endorsements_in(list@)),
            dict::dict(endorsements_in(list@)) == self@.endorsements(requests@),
    {
        let mut list: Vec<(ValidatorIndex, (BlockHash, Vec<CandidateIndex>, ValidatorSignature))> = Vec::new();
        let mut i: usize = 0;
        proof {
            assert(requests@.take(0) =~= Seq::empty());
            assert(endorsements_in(list@) =~= Seq::empty());
            assert(dict::dict(endorsements_in(list@)) =~= Endorsements::empty());
        }
        while i < requests.len()
            invariant
                i <= requests.len(),
                self.parts_wf(),
                dict::keys_unique(endorsements_in(list@)),
                dict::dict(endorsements_in(list@)) == self@.endorsements(requests@.take(i as int)),
            decreases requests.len() - i,
        {
            let (hash, candidate) = requests[i];
            proof {
                assert(requests@.take(i + 1).drop_last() =~= requests@.take(i as int));
                assert(requests@.take(i + 1).last() == requests@[i as int]);
            }
            if let Some(position) = self.block_position(hash) {
                self.blocks[position].1.add_endorsements(&mut list, hash, candidate);
            }
            i += 1;
        }
        assert(requests@.take(i as int) =~= requests@);
        list
    }

    /// A block that is not final.
    pub fn block(&self, hash: BlockHash) -> (found: Option<&BlockEntry>)
        requires
            self.parts_wf(),
        ensures
            found is Some <==> self@.has_block(hash),
            found matches Some(block) ==> block.wf() && block@ == self@.block(hash),
    {
        match self.block_position(hash) {
            Some(i) => Some(&self.blocks[i].1),
            None => None,
        }
    }

    /// The blocks with a number, in the order in which they came in.
    pub fn blocks_by_number(&self, number: BlockNumber) -> (hashes: Vec<BlockHash>)
        ensures
            hashes@ == lists::filter_mapped(self@.blocks, hash_at(number)),
    {
        let ghost list = self@.blocks;
        let mut hashes: Vec<BlockHash> = Vec::new();
        let mut i: usize = 0;
        while i < self.blocks.len()
            invariant
                i <= self.blocks.len(),
                list == self@.blocks,
                hashes@ == lists::filter_mapped(list.take(i as int), hash_at(number)),
            decreases self.blocks.len() - i,
        {
            proof {
                lists::lemma_filter_mapped_step(list, i as int, hash_at(number));
                assert(list[i as int] == (self.blocks@[i as int].0, self.blocks@[i as int].1@));
            }
            if self.blocks[i].1.number == number {
                hashes.push(self.blocks[i].0);
            }
            i += 1;
        }
        assert(list.take(i as int) =~= list);
        hashes
    }

    /// A connected peer.
    pub fn peer(&self, peer: PeerId) -> (found: Option<&PeerEntry>)
        requires
            self.parts_wf(),
        ensures
            found is Some <==> self@.has_peer(peer),
            found matches Some(entry) ==> entry@ == self@.peer(peer),
    {
        match self.peer_position(peer) {
            Some(i) => Some(&self.peer_views[i].1),
            None => None,
        }
    }
}

/// Whether a vote of a validator about a block approves a candidate.
pub open spec fn approves(vote: IndirectSignedApprovalVoteV2, validator: ValidatorIndex, candidate: CandidateIndex) -> bool {
    vote.validator == validator && vote.candidate_indices.has(candidate as int)
}

/// Whether one of some votes of a validator approves a candidate.
pub open spec fn approved_in(
    votes: Seq<IndirectSignedApprovalVoteV2>,
    validator: ValidatorIndex,
    candidate: CandidateIndex,
) -> bool {
    exists|j: int| 0 <= j < votes.len() && approves(#[trigger] votes[j], validator, candidate)
}

proof fn lemma_endorsed_by_votes(
    found: Endorsements,
    hash: BlockHash,
    candidate: CandidateIndex,
    votes: Seq<IndirectSignedApprovalVoteV2>,
    validator: ValidatorIndex,
)
    ensures
        endorsed_by_votes(found, hash, candidate, votes).contains_key(validator) <==> found.contains_key(validator)
            || approved_in(votes, validator, candidate),
    decreases votes.len(),
{
    if votes.len() > 0 {
        let short = votes.drop_last();
        let last = votes.len() - 1;
        lemma_endorsed_by_votes(found, hash, candidate, short, validator);
        if approved_in(short, validator, candidate) {
            let j = choose|j: int| 0 <= j < short.len() && approves(#[trigger] short[j], validator, candidate);
            assert(approves(votes[j], validator, candidate));
        }
        if approved_in(votes, validator, candidate) {
            let j = choose|j: int| 0 <= j < votes.len() && approves(#[trigger] votes[j], validator, candidate);
            if j < last {
                assert(approves(short[j], validator, candidate));
            }
        }
        if approves(votes[last], validator, candidate) {
            assert(approved_in(votes, validator, candidate));
        }
    }
}

proof fn lemma_endorsed_by_entries(
    found: Endorsements,
    hash: BlockHash,
    candidate: CandidateIndex,
    entries: Seq<Entry>,
    validator: ValidatorIndex,
)
    ensures
        endorsed_by_entries(found, hash, candidate, entries).contains_key(validator) <==> found.contains_key(
            validator,
        ) || exists|k: int|
            0 <= k < entries.len() && approved_in((#[trigger] entries[k]).approvals, validator, candidate),
    decreases entries.len(),
{
    if entries.len() > 0 {
        let short = entries.drop_last();
        let last = entries.len() - 1;
        lemma_endorsed_by_entries(found, hash, candidate, short, validator);
        let rest = endorsed_by_entries(found, hash, candidate, short);
        lemma_endorsed_by_votes(rest, hash, candidate, entries[last].approvals, validator);
        if exists|k: int| 0 <= k < short.len() && approved_in((#[trigger] short[k]).approvals, validator, candidate) {
            let k = choose|k: int|
                0 <= k < short.len() && approved_in((#[trigger] short[k]).approvals, validator, candidate);
            assert(approved_in(entries[k].approvals, validator, candidate));
        }
        if exists|k: int|
            0 <= k < entries.len() && approved_in((#[trigger] entries[k]).approvals, validator, candidate) {
            let k = choose|k: int|
                0 <= k < entries.len() && approved_in((#[trigger] entries[k]).approvals, validator, candidate);
            if k < last {
                assert(approved_in(short[k].approvals, validator, candidate));
            }
        }
    }
}

/// Whether a validator has approved a candidate of a known block.
pub open spec fn has_approved(node: Node, validator: ValidatorIndex, request: (BlockHash, CandidateIndex)) -> bool {
    node.has_block(request.0) && exists|k: int|
        0 <= k < node.block(request.0).entries.len() && approved_in(
            (#[trigger] node.block(request.0).entries[k]).approvals,
            validator,
            request.1,
        )
}

/// A signature is found for exactly those validators that have approved one of the candidates.
pub proof fn signatures_are_found_for_all_approvals(
    node: Node,
    requests: Seq<(BlockHash, CandidateIndex)>,
    validator: ValidatorIndex,
)
    ensures
        node.endorsements(requests).contains_key(validator) <==> exists|r: int|
            0 <= r < requests.len() && has_approved(node, validator, #[trigger] requests[r]),
    decreases requests.len(),
{
    if requests.len() > 0 {
        let short = requests.drop_last();
        let last = requests.len() - 1;
        signatures_are_found_for_all_approvals(node, short, validator);
        let (hash, candidate) = requests.last();
        if node.has_block(hash) {
            lemma_endorsed_by_entries(
                node.endorsements(short),
                hash,
                candidate,
                node.block(hash).entries,
                validator,
            );
        }
        if exists|r: int| 0 <= r < short.len() && has_approved(node, validator, #[trigger] short[r]) {
            let r = choose|r: int| 0 <= r < short.len() && has_approved(node, validator, #[trigger] short[r]);
            assert(has_approved(node, validator, requests[r]));
        }
        if exists|r: int| 0 <= r < requests.len() && has_approved(node, validator, #[trigger] requests[r]) {
            let r = choose|r: int| 0 <= r < requests.len() && has_approved(node, validator, #[trigger] requests[r]);
            if r < last {
                assert(has_approved(node, validator, short[r]));
            }
        }
        if has_approved(node, validator, requests[last]) {
            assert(exists|r: int| 0 <= r < requests.len() && has_approved(node, validator, #[trigger] requests[r]));
        }
    }
}

/// Whether a validator's vote approves a candidate, and an answer gives its block, all its candidates and its
/// signature.
pub open spec fn answers_with(
    vote: IndirectSignedApprovalVoteV2,
    validator: ValidatorIndex,
    request: (BlockHash, CandidateIndex),
    answer: (BlockHash, Seq<CandidateIndex>, ValidatorSignature),
) -> bool {
    &&& vote.validator == validator
    &&& vote.candidate_indices.has(request.1 as int)
    &&& answer.0 == request.0
    &&& answer.1 == vote.candidate_indices.ones()
    &&& answer.2 == vote.signature
}

proof fn lemma_votes_answer(
    found: Endorsements,
    request: (BlockHash, CandidateIndex),
    votes: Seq<IndirectSignedApprovalVoteV2>,
    validator: ValidatorIndex,
)
    ensures
        ({
            let next = endorsed_by_votes(found, request.0, request.1, votes);
            next.contains_key(validator) ==> {
                ||| exists|j: int|
                    0 <= j < votes.len() && answers_with(#[trigger] votes[j], validator, request, next[validator])
                ||| found.contains_key(validator) && next[validator] == found[validator]
            }
        }),
    decreases votes.len(),
{
    if votes.len() > 0 {
        let short = votes.drop_last();
        let last = votes.len() - 1;
        lemma_votes_answer(found, request, short, validator);
        let rest = endorsed_by_votes(found, request.0, request.1, short);
        let next = endorsed_by_votes(found, request.0, request.1, votes);
        if approves(votes[last], validator, request.1) {
            assert(answers_with(votes[last], validator, request, next[validator]));
        } else if next.contains_key(validator) {
            assert(next[validator] == rest[validator]);
            if exists|j: int|
                0 <= j < short.len() && answers_with(#[trigger] short[j], validator, request, rest[validator]) {
                let j = choose|j: int|
                    0 <= j < short.len() && answers_with(#[trigger] short[j], validator, request, rest[validator]);
                assert(answers_with(votes[j], validator, request, next[validator]));
            }
        }
    }
}

/// Whether one of the votes noted under some entries gives an answer.
pub open spec fn answered_in(
    entries: Seq<Entry>,
    validator: ValidatorIndex,
    request: (BlockHash, CandidateIndex),
    answer: (BlockHash, Seq<CandidateIndex>, ValidatorSignature),
) -> bool {
    exists|k: int, j: int|
        0 <= k < entries.len() && 0 <= j < entries[k].approvals.len() && answers_with(
            #[trigger] entries[k].approvals[j],
            validator,
            request,
            answer,
        )
}

proof fn lemma_entries_answer(
    found: Endorsements,
    request: (BlockHash, CandidateIndex),
    entries: Seq<Entry>,
    validator: ValidatorIndex,
)
    ensures
        ({
            let next = endorsed_by_entries(found, request.0, request.1, entries);
            next.contains_key(validator) ==> {
                ||| answered_in(entries, validator, request, next[validator])
                ||| found.contains_key(validator) && next[validator] == found[validator]
            }
        }),
    decreases entries.len(),
{
    if entries.len() > 0 {
        let short = entries.drop_last();
        let last = entries.len() - 1;
        let votes = entries.last().approvals;
        lemma_entries_answer(found, request, short, validator);
        let rest = endorsed_by_entries(found, request.0, request.1, short);
        let next = endorsed_by_entries(found, request.0, request.1, entries);
        lemma_votes_answer(rest, request, votes, validator);
        if next.contains_key(validator) {
            if exists|j: int|
                0 <= j < votes.len() && answers_with(#[trigger] votes[j], validator, request, next[validator]) {
                let j = choose|j: int|
                    0 <= j < votes.len() && answers_with(#[trigger] votes[j], validator, request, next[validator]);
                assert(answers_with(entries[last].approvals[j], validator, request, next[validator]));
            } else if answered_in(short, validator, request, rest[validator]) {
                let (k, j) = choose|k: int, j: int|
                    0 <= k < short.len() && 0 <= j < short[k].approvals.len() && answers_with(
                        #[trigger] short[k].approvals[j],
                        validator,
                        request,
                        rest[validator],
                    );
                assert(entries[k] == short[k]);
                assert(answers_with(entries[k].approvals[j], validator, request, next[validator]));
            }
        }
    }
}

/// Every answer comes from a vote of the validator that is noted for the block of a request and approves the
/// candidate of that request: it names the block, the candidates that this vote approves, and its signature.
pub proof fn signatures_come_from_approving_votes(
    node: Node,
    requests: Seq<(BlockHash, CandidateIndex)>,
    validator: ValidatorIndex,
)
    requires
        node.endorsements(requests).contains_key(validator),
    ensures
        exists|r: int|
            0 <= r < requests.len() && node.has_block((#[trigger] requests[r]).0) && answered_in(
                node.block(requests[r].0).entries,
                validator,
                requests[r],
                node.endorsements(requests)[validator],
            ),
    decreases requests.len(),
{
    let short = requests.drop_last();
    let last = requests.len() - 1;
    let request = requests.last();
    let rest = node.endorsements(short);
    let next = node.endorsements(requests);
    if node.has_block(request.0) {
        lemma_entries_answer(rest, request, node.block(request.0).entries, validator);
    }
    if node.has_block(request.0) && answered_in(
        node.block(request.0).entries,
        validator,
        request,
        next[validator],
    ) {
        assert(requests[last] == request);
    } else {
        assert(rest.contains_key(validator) && rest[validator] == next[validator]);
        signatures_come_from_approving_votes(node, short, validator);
        let r = choose|r: int|
            0 <= r < short.len() && node.has_block((#[trigger] short[r]).0) && answered_in(
                node.block(short[r].0).entries,
                validator,
                short[r],
                rest[validator],
            );
        assert(requests[r] == short[r]);
    }
}

/// The candidates of an answer are all those that a vote approves, in ascending order.
pub proof fn approved_candidates_are_listed_in_order(field: Bitfield, i: int, j: int, index: int)
    ensures
        0 <= i < j < field.ones().len() ==> field.ones()[i] < field.ones()[j],
        0 <= i < field.ones().len() ==> field.has(field.ones()[i] as int),
        field.has(index) ==> field.ones().contains(index as u32),
{
    lemma_ones_below(field, MAX_BITFIELD_SIZE as nat, i, j, index);
}

proof fn lemma_ones_below(field: Bitfield, bound: nat, i: int, j: int, index: int)
    requires
        bound <= MAX_BITFIELD_SIZE,
    ensures
        ({
            let ones = field.ones_below(bound);
            &&& 0 <= i < j < ones.len() ==> ones[i] < ones[j]
            &&& 0 <= i < ones.len() ==> field.has(ones[i] as int) && ones[i] < bound
            &&& field.has(index) && index < bound ==> ones.contains(index as u32)
        }),
    decreases bound,
{
    if bound > 0 {
        let below = (bound - 1) as nat;
        let short = field.ones_below(below);
        let ones = field.ones_below(bound);
        lemma_ones_below(field, below, i, j, index);
        if field.has(below as int) {
            assert(ones == short.push(below as u32));
            if index == below {
                assert(ones[short.len() as int] == index as u32);
            } else if field.has(index) && index < bound {
                let m = choose|m: int| 0 <= m < short.len() && short[m] == index as u32;
                assert(ones[m] == index as u32);
            }
        }
    }
}

proof fn lemma_last_vote_counts(
    found: Endorsements,
    request: (BlockHash, CandidateIndex),
    votes: Seq<IndirectSignedApprovalVoteV2>,
    validator: ValidatorIndex,
    from: int,
)
    requires
        0 <= from <= votes.len(),
        forall|j: int| from <= j < votes.len() ==> !approves(#[trigger] votes[j], validator, request.1),
    ensures
        ({
            let next = endorsed_by_votes(found, request.0, request.1, votes);
            let upto = endorsed_by_votes(found, request.0, request.1, votes.take(from));
            &&& next.contains_key(validator) <==> upto.contains_key(validator)
            &&& next[validator] == upto[validator]
        }),
    decreases votes.len(),
{
    if from == votes.len() {
        assert(votes.take(from) =~= votes);
    } else {
        let short = votes.drop_last();
        assert forall|j: int| from <= j < short.len() implies !approves(#[trigger] short[j], validator, request.1) by {
            assert(short[j] == votes[j]);
        }
        lemma_last_vote_counts(found, request, short, validator, from);
        assert(short.take(from) =~= votes.take(from));
        assert(!approves(votes[votes.len() - 1], validator, request.1));
    }
}

proof fn lemma_last_entry_counts(
    found: Endorsements,
    request: (BlockHash, CandidateIndex),
    entries: Seq<Entry>,
    validator: ValidatorIndex,
    from: int,
)
    requires
        0 <= from <= entries.len(),
        forall|k: int|
            from <= k < entries.len() ==> !approved_in((#[trigger] entries[k]).approvals, validator, request.1),
    ensures
        ({
            let next = endorsed_by_entries(found, request.0, request.1, entries);
            let upto = endorsed_by_entries(found, request.0, request.1, entries.take(from));
            &&& next.contains_key(validator) <==> upto.contains_key(validator)
            &&& next[validator] == upto[validator]
        }),
    decreases entries.len(),
{
    if from == entries.len() {
        assert(entries.take(from) =~= entries);
    } else {
        let short = entries.drop_last();
        let votes = entries.last().approvals;
        assert forall|k: int| from <= k < short.len() implies !approved_in(
            (#[trigger] short[k]).approvals,
            validator,
            request.1,
        ) by {
            assert(short[k] == entries[k]);
        }
        lemma_last_entry_counts(found, request, short, validator, from);
        assert(short.take(from) =~= entries.take(from));
        assert(!approved_in(entries[entries.len() - 1].approvals, validator, request.1));
        let rest = endorsed_by_entries(found, request.0, request.1, short);
        lemma_last_vote_counts(rest, request, votes, validator, 0);
        assert(votes.take(0) =~= Seq::empty());
        assert(endorsed_by_votes(rest, request.0, request.1, votes.take(0)) == rest);
    }
}

/// Of several votes of a validator that approve candidates asked for, the answer comes from the last one: that of
/// the last request, of the last entry, and noted last.
pub proof fn the_last_approving_vote_counts(
    node: Node,
    requests: Seq<(BlockHash, CandidateIndex)>,
    validator: ValidatorIndex,
    r: int,
    k: int,
    j: int,
)
    requires
        0 <= r < requests.len(),
        node.has_block(requests[r].0),
        0 <= k < node.block(requests[r].0).entries.len(),
        0 <= j < node.block(requests[r].0).entries[k].approvals.len(),
        approves(node.block(requests[r].0).entries[k].approvals[j], validator, requests[r].1),
        forall|s: int| r < s < requests.len() ==> !has_approved(node, validator, #[trigger] requests[s]),
        forall|l: int|
            k < l < node.block(requests[r].0).entries.len() ==> !approved_in(
                (#[trigger] node.block(requests[r].0).entries[l]).approvals,
                validator,
                requests[r].1,
            ),
        forall|m: int|
            j < m < node.block(requests[r].0).entries[k].approvals.len() ==> !approves(
                #[trigger] node.block(requests[r].0).entries[k].approvals[m],
                validator,
                requests[r].1,
            ),
    ensures
        ({
            let vote = node.block(requests[r].0).entries[k].approvals[j];
            &&& node.endorsements(requests).contains_key(validator)
            &&& node.endorsements(requests)[validator] == (
                requests[r].0,
                vote.candidate_indices.ones(),
                vote.signature,
            )
        }),
    decreases requests.len(),
{
    let short = requests.drop_last();
    let request = requests.last();
    let rest = node.endorsements(short);
    if r < requests.len() - 1 {
        assert forall|s: int| r < s < short.len() implies !has_approved(node, validator, #[trigger] short[s]) by {
            assert(short[s] == requests[s]);
        }
        assert(short[r] == requests[r]);
        the_last_approving_vote_counts(node, short, validator, r, k, j);
        assert(!has_approved(node, validator, requests[requests.len() - 1]));
        if node.has_block(request.0) {
            let entries = node.block(request.0).entries;
            lemma_last_entry_counts(rest, request, entries, validator, 0);
            assert(entries.take(0) =~= Seq::empty());
            assert(endorsed_by_entries(rest, request.0, request.1, entries.take(0)) == rest);
        }
    } else {
        let entries = node.block(request.0).entries;
        lemma_last_entry_counts(rest, request, entries, validator, k + 1);
        let found = endorsed_by_entries(rest, request.0, request.1, entries.take(k));
        assert(entries.take(k + 1).drop_last() =~= entries.take(k));
        assert(entries.take(k + 1).last() == entries[k]);
        let votes = entries[k].approvals;
        lemma_last_vote_counts(found, request, votes, validator, j + 1);
        assert(votes.take(j + 1).drop_last() =~= votes.take(j));
        assert(votes.take(j + 1).last() == votes[j]);
    }
}

/// The blocks with a number are found, and no others.
pub proof fn blocks_are_found_by_their_number(blocks: Seq<(BlockHash, Block)>, number: BlockNumber, hash: BlockHash)
    ensures
        lists::filter_mapped(blocks, hash_at(number)).contains(hash) <==> exists|i: int|
            0 <= i < blocks.len() && (#[trigger] blocks[i]).0 == hash && blocks[i].1.number == number,
    decreases blocks.len(),
{
    let found = lists::filter_mapped(blocks, hash_at(number));
    if blocks.len() > 0 {
        let short = blocks.drop_last();
        let last = blocks.len() - 1;
        let rest = lists::filter_mapped(short, hash_at(number));
        blocks_are_found_by_their_number(short, number, hash);
        if rest.contains(hash) {
            let i = choose|i: int|
                0 <= i < short.len() && (#[trigger] short[i]).0 == hash && short[i].1.number == number;
            assert(blocks[i] == short[i]);
            let f = choose|f: int| 0 <= f < rest.len() && rest[f] == hash;
            assert(found[f] == hash);
        }
        if blocks[last].0 == hash && blocks[last].1.number == number {
            assert(found[rest.len() as int] == hash);
        }
        if exists|i: int| 0 <= i < blocks.len() && (#[trigger] blocks[i]).0 == hash && blocks[i].1.number == number {
            let i = choose|i: int|
                0 <= i < blocks.len() && (#[trigger] blocks[i]).0 == hash && blocks[i].1.number == number;
            if i < last {
                assert(short[i] == blocks[i]);
            }
        }
        if found.contains(hash) && !rest.contains(hash) {
            let f = choose|f: int| 0 <= f < found.len() && found[f] == hash;
            assert(f == rest.len()) by {
                if f < rest.len() {
                    assert(rest[f] == hash);
                }
            }
            assert(blocks[last].0 == hash);
        }
    }
}

} // verus!
