//! The plan of a slicing run: which tensors the output holds, under which names, with
//! which dimensions, and where their data comes from.

use crate::names::same_text;
use crate::numtext::find_first;
use crate::numtext::first_of;
use crate::numtext::parse_number;
use crate::numtext::parsed;
use crate::slice_roles::layer_name;
use crate::slice_roles::layer_of;
use crate::slice_roles::role_in;
use crate::slice_roles::role_of;
use crate::slice_roles::split_layer;
use crate::slice_roles::Arch;
use crate::slice_roles::Role;
use crate::slice_rows::cut_dims;
use crate::slice_rows::opt_len;
use crate::text::decimal;
use crate::text::push_decimal;
use crate::text::push_text;
use crate::text::stands_at;
use crate::text::sub_chars;
use crate::unicode::chars_of;
use crate::weights::Entry;
use crate::weights::EntryView;
use crate::weights::DTYPE_VQ1;
use vstd::prelude::*;

verus! {

/// Entries of the global codebook.
pub const VQ_K: u32 = 256;

/// What stays of a model.
pub struct Selection {
    pub arch: Arch,
    /// The latent-attention layers.
    pub mla: Vec<bool>,
    /// The kept layers, in their new order.
    pub layers: Vec<usize>,
    /// The kept hidden channels.
    pub channels: Vec<usize>,
    /// Per layer the kept experts in their new order, where experts are renumbered.
    pub experts: Option<Vec<Option<Vec<usize>>>>,
    /// Per layer the experts that stay at full precision, where the others do not.
    pub hot: Option<Vec<Option<Vec<usize>>>>,
    /// The kept vocabulary rows, where the vocabulary is pruned.
    pub vocab: Option<Vec<usize>>,
}

/// One tensor of the output.
pub struct Plan {
    pub out_name: String,
    pub dtype: u8,
    pub dims: Vec<u32>,
    /// The row of the source directory that the data comes from; the codebook has none.
    pub src: Option<usize>,
    pub role: Role,
    /// The experts whose router rows are kept.
    pub experts: Option<Vec<usize>>,
    /// The rows are cut to the kept vocabulary.
    pub vocab: bool,
}

/// What a plan says.
pub ghost struct PlanView {
    pub out_name: Seq<char>,
    pub dtype: u8,
    pub dims: Seq<u32>,
    pub src: Option<usize>,
    pub role: Role,
    pub experts: Option<Seq<usize>>,
    pub vocab: bool,
}

impl View for Plan {
    type V = PlanView;

    open spec fn view(&self) -> PlanView {
        PlanView {
            out_name: self.out_name@,
            dtype: self.dtype,
            dims: self.dims@,
            src: self.src,
            role: self.role,
            experts: match self.experts {
                Some(e) => Some(e@),
                None => None,
            },
            vocab: self.vocab,
        }
    }
}

/// Why a source cannot be planned: the row of its directory that is at fault.
#[derive(Debug, Clone, Copy, PartialEq, Eq, Structural)]
pub enum PlanError {
    /// A tensor whose role is not known.
    UnknownTensor(usize),
    /// An expert tensor without a number.
    BadExpert(usize),
    /// An expert or router tensor in a layer without an expert list.
    NoExpertList(usize),
    /// Too few dimensions for the role.
    BadDims(usize),
}

/// The first position of `x`.
pub open spec fn position_from(s: Seq<usize>, x: nat, i: int) -> Option<int>
    decreases s.len() - i,
{
    if i >= s.len() {
        None
    } else if s[i] == x {
        Some(i)
    } else {
        position_from(s, x, i + 1)
    }
}

/// The first position of `x` in a list.
pub open spec fn position(s: Seq<usize>, x: nat) -> Option<int> {
    position_from(s, x, 0)
}

/// Finds the first position of `x`.
pub fn find_position(s: &[usize], x: usize) -> (at: Option<usize>)
    ensures
        match at {
            Some(i) => position(s@, x as nat) == Some(i as int) && i < s@.len() && s@[i as int]
                == x,
            None => position(s@, x as nat) is None && !s@.contains(x),
        },
{
    let n: usize = s.len();
    let mut i: usize = 0;
    while i < n
        invariant
            i <= n == s@.len(),
            position(s@, x as nat) == position_from(s@, x as nat, i as int),
            forall|k: int| 0 <= k < i ==> #[trigger] s@[k] != x,
        decreases n - i,
    {
        if s[i] == x {
            return Some(i);
        }
        i += 1;
    }
    None
}

/// A found position holds the item.
pub proof fn lemma_position(s: Seq<usize>, x: nat, i: int)
    requires
        0 <= i,
        position_from(s, x, i) is Some,
    ensures
        i <= position_from(s, x, i)->Some_0 < s.len(),
        s[position_from(s, x, i)->Some_0] == x,
    decreases s.len() - i,
{
    if i < s.len() && s[i] != x {
        lemma_position(s, x, i + 1);
    }
}

/// The list of a layer.
pub open spec fn list_of(lists: Seq<Option<Vec<usize>>>, l: nat) -> Option<Seq<usize>> {
    if l < lists.len() {
        match lists[l as int] {
            Some(v) => Some(v@),
            None => None,
        }
    } else {
        None
    }
}

/// What the name of an expert tensor says: the expert's number and the rest.
pub open spec fn expert_of(rest: Seq<char>) -> Option<(nat, Seq<char>)> {
    let tail = rest.skip("block_sparse_moe.experts."@.len() as int);
    let dot = first_of(tail, '.');
    if dot >= tail.len() {
        None
    } else {
        match parsed(tail.take(dot), usize::MAX as nat) {
            Some(e) => Some((e, tail.skip(dot + 1))),
            None => None,
        }
    }
}

/// The name of an expert tensor within its layer.
pub open spec fn expert_rest(e: nat, tail: Seq<char>) -> Seq<char> {
    "block_sparse_moe.experts."@ + decimal(e) + "."@ + tail
}

/// What becomes of a tensor's name: the new name, the experts of a router tensor, and
/// whether the tensor changes to codebook indices.
pub ghost struct NewName {
    pub name: Seq<char>,
    pub experts: Option<Seq<usize>>,
    pub cold: bool,
}

impl Selection {
    /// The new number of an expert: its place in the layer's list.
    pub open spec fn new_expert(&self, l: nat, e: nat, row: usize) -> Result<
        Option<nat>,
        PlanError,
    > {
        match self.experts {
            None => Ok(Some(e)),
            Some(lists) => match list_of(lists@, l) {
                None => Err(PlanError::NoExpertList(row)),
                Some(list) => match position(list, e) {
                    Some(i) => Ok(Some(i as nat)),
                    None => Ok(None),
                },
            },
        }
    }

    /// An expert that does not stay at full precision.
    pub open spec fn cold_expert(&self, l: nat, e: nat, row: usize) -> Result<bool, PlanError> {
        match self.hot {
            None => Ok(false),
            Some(lists) => match list_of(lists@, l) {
                None => Err(PlanError::NoExpertList(row)),
                Some(list) => Ok(position(list, e) is None),
            },
        }
    }

    /// What becomes of an expert tensor of layer `l`, which is now `nl`.
    pub open spec fn expert_plan(
        &self,
        l: nat,
        nl: nat,
        rest: Seq<char>,
        row: usize,
    ) -> Result<Option<NewName>, PlanError> {
        match expert_of(rest) {
            None => Err(PlanError::BadExpert(row)),
            Some((e, tail)) => match self.new_expert(l, e, row) {
                Err(x) => Err(x),
                Ok(None) => Ok(None),
                Ok(Some(idx)) => match self.cold_expert(l, e, row) {
                    Err(x) => Err(x),
                    Ok(cold) => Ok(
                        Some(
                            NewName {
                                name: layer_name(nl, expert_rest(idx, tail)),
                                experts: None,
                                cold,
                            },
                        ),
                    ),
                },
            },
        }
    }

    /// What becomes of a router tensor.
    pub open spec fn router_plan(
        &self,
        l: nat,
        nl: nat,
        rest: Seq<char>,
        row: usize,
    ) -> Result<Option<NewName>, PlanError> {
        let name = layer_name(nl, rest);
        match self.experts {
            None => Ok(Some(NewName { name, experts: None, cold: false })),
            Some(lists) => match list_of(lists@, l) {
                None => Err(PlanError::NoExpertList(row)),
                Some(list) => Ok(Some(NewName { name, experts: Some(list), cold: false })),
            },
        }
    }

    /// What becomes of a tensor's name; nothing where it is pruned.
    pub open spec fn renamed(&self, name: Seq<char>, role: Role, row: usize) -> Result<
        Option<NewName>,
        PlanError,
    > {
        match layer_of(name) {
            None => Ok(Some(NewName { name, experts: None, cold: false })),
            Some((l, rest)) => match position(self.layers@, l) {
                None => Ok(None),
                Some(nl) => if role == Role::Expert {
                    self.expert_plan(l, nl as nat, rest, row)
                } else if role == Role::RouterW || role == Role::RouterB {
                    self.router_plan(l, nl as nat, rest, row)
                } else {
                    Ok(
                        Some(
                            NewName {
                                name: layer_name(nl as nat, rest),
                                experts: None,
                                cold: false,
                            },
                        ),
                    )
                },
            },
        }
    }

    /// A vocabulary matrix, where the vocabulary is pruned.
    pub open spec fn cuts_vocab(&self, name: Seq<char>) -> bool {
        self.vocab is Some && (name == "embed_tokens.weight"@ || name == "lm_head.weight"@)
    }

    /// The kept vocabulary rows of a tensor whose rows are cut.
    pub open spec fn vocab_rows(&self, name: Seq<char>) -> Option<int> {
        if self.cuts_vocab(name) {
            Some(self.vocab->Some_0@.len() as int)
        } else {
            None
        }
    }

    /// What becomes of a tensor; nothing where it is pruned.
    pub open spec fn planned(&self, name: Seq<char>, e: EntryView, row: usize) -> Result<
        Option<PlanView>,
        PlanError,
    > {
        match role_in(name, self.mla@, self.arch) {
            None => Err(PlanError::UnknownTensor(row)),
            Some(role) => match self.renamed(name, role, row) {
                Err(x) => Err(x),
                Ok(None) => Ok(None),
                Ok(Some(new)) => if role != Role::Copy && role != Role::Expert && (e.dims.len()
                    == 0 || (role == Role::RowsD && e.dims.len() < 2)) {
                    Err(PlanError::BadDims(row))
                } else {
                    Ok(
                        Some(
                            PlanView {
                                out_name: new.name,
                                dtype: if new.cold {
                                    DTYPE_VQ1
                                } else {
                                    e.dtype
                                },
                                dims: cut_dims(
                                    role,
                                    e.dims,
                                    self.channels@.len() as int,
                                    opt_len(new.experts),
                                    self.vocab_rows(name),
                                ),
                                src: Some(row),
                                role,
                                experts: new.experts,
                                vocab: self.cuts_vocab(name),
                            },
                        ),
                    )
                },
            },
        }
    }

    /// The plans of the first `n` tensors, in directory order.
    pub open spec fn plans_of(&self, list: Seq<(String, Entry)>, n: int) -> Result<
        Seq<PlanView>,
        PlanError,
    >
        decreases n,
    {
        if n <= 0 {
            Ok(Seq::empty())
        } else {
            match self.plans_of(list, n - 1) {
                Err(x) => Err(x),
                Ok(v) => match self.planned(
                    list[n - 1].0@,
                    list[n - 1].1@,
                    (n - 1) as usize,
                ) {
                    Err(x) => Err(x),
                    Ok(None) => Ok(v),
                    Ok(Some(p)) => Ok(v.push(p)),
                },
            }
        }
    }

    /// The counts fit the fields of a directory.
    pub open spec fn counts_fit(&self) -> bool {
        &&& self.channels@.len() <= u32::MAX
        &&& self.vocab is Some ==> self.vocab->Some_0@.len() <= u32::MAX
        &&& self.experts is Some ==> forall|l: int|
            0 <= l < self.experts->Some_0@.len() ==> match #[trigger] self.experts->Some_0@[l] {
                Some(v) => v@.len() <= u32::MAX,
                None => true,
            }
    }
}

/// The views of plans.
pub open spec fn plan_views(plans: Seq<Plan>) -> Seq<PlanView> {
    Seq::new(plans.len(), |i: int| plans[i]@)
}

fn layer_list(lists: &Vec<Option<Vec<usize>>>, l: usize) -> (list: Option<&Vec<usize>>)
    ensures
        match list {
            Some(v) => list_of(lists@, l as nat) == Some(v@) && lists@[l as int] == Some(*v) && l
                < lists@.len(),
            None => list_of(lists@, l as nat) is None,
        },
{
    if l < lists.len() {
        match &lists[l] {
            Some(v) => Some(v),
            None => None,
        }
    } else {
        None
    }
}

/// Puts together the name of a tensor of a layer.
pub fn join_layer(nl: usize, rest: &[char]) -> (name: String)
    ensures
        name@ == layer_name(nl as nat, rest@),
{
    let mut out: String = String::new();
    push_text(&mut out, "layers.");
    push_decimal(&mut out, nl as u64);
    push_text(&mut out, ".");
    let rest_text: String = crate::unicode::text_of(rest);
    push_text(&mut out, rest_text.as_str());
    proof {
        assert(out@ =~= layer_name(nl as nat, rest@));
    }
    out
}

fn join_expert(nl: usize, e: usize, tail: &[char]) -> (name: String)
    ensures
        name@ == layer_name(nl as nat, expert_rest(e as nat, tail@)),
{
    let mut out: String = String::new();
    push_text(&mut out, "layers.");
    push_decimal(&mut out, nl as u64);
    push_text(&mut out, ".");
    push_text(&mut out, "block_sparse_moe.experts.");
    push_decimal(&mut out, e as u64);
    push_text(&mut out, ".");
    let tail_text: String = crate::unicode::text_of(tail);
    push_text(&mut out, tail_text.as_str());
    proof {
        assert(out@ =~= layer_name(nl as nat, expert_rest(e as nat, tail@)));
    }
    out
}

fn split_expert(rest: &[char]) -> (r: Option<(usize, Vec<char>)>)
    requires
        stands_at(rest@, "block_sparse_moe.experts."@, 0),
    ensures
        match r {
            Some((e, tail)) => expert_of(rest@) == Some((e as nat, tail@)),
            None => expert_of(rest@) is None,
        },
{
    let head: Vec<char> = chars_of("block_sparse_moe.experts.");
    let tail: Vec<char> = sub_chars(rest, head.len(), rest.len());
    proof {
        assert(tail@ =~= rest@.skip("block_sparse_moe.experts."@.len() as int));
    }
    let dot: usize = find_first(tail.as_slice(), '.');
    if dot == tail.len() {
        return None;
    }
    let digits: Vec<char> = sub_chars(tail.as_slice(), 0, dot);
    let after: Vec<char> = sub_chars(tail.as_slice(), dot + 1, tail.len());
    proof {
        assert(digits@ =~= tail@.take(dot as int));
        assert(after@ =~= tail@.skip(dot + 1));
    }
    match parse_number(digits.as_slice(), usize::MAX as u64) {
        Some(e) => Some((e as usize, after)),
        None => None,
    }
}

/// A new name, as the planner holds it.
struct Renamed {
    name: String,
    experts: Option<Vec<usize>>,
    cold: bool,
}

impl Renamed {
    spec fn says(&self) -> NewName {
        NewName {
            name: self.name@,
            experts: match self.experts {
                Some(e) => Some(e@),
                None => None,
            },
            cold: self.cold,
        }
    }
}

spec fn renamed_view(r: Result<Option<Renamed>, PlanError>) -> Result<Option<NewName>, PlanError> {
    match r {
        Ok(Some(n)) => Ok(Some(n.says())),
        Ok(None) => Ok(None),
        Err(e) => Err(e),
    }
}

impl Selection {
    fn plan_expert(&self, l: usize, nl: usize, rest: &[char], row: usize) -> (r: Result<
        Option<Renamed>,
        PlanError,
    >)
        requires
            stands_at(rest@, "block_sparse_moe.experts."@, 0),
        ensures
            renamed_view(r) == self.expert_plan(l as nat, nl as nat, rest@, row),
    {
        match split_expert(rest) {
            None => Err(PlanError::BadExpert(row)),
            Some((e, tail)) => {
                let idx: usize = match &self.experts {
                    None => e,
                    Some(lists) => match layer_list(lists, l) {
                        None => {
                            return Err(PlanError::NoExpertList(row));
                        },
                        Some(list) => match find_position(list.as_slice(), e) {
                            Some(i) => i,
                            None => {
                                return Ok(None);
                            },
                        },
                    },
                };
                let cold: bool = match &self.hot {
                    None => false,
                    Some(lists) => match layer_list(lists, l) {
                        None => {
                            return Err(PlanError::NoExpertList(row));
                        },
                        Some(list) => find_position(list.as_slice(), e).is_none(),
                    },
                };
                let name: String = join_expert(nl, idx, tail.as_slice());
                Ok(Some(Renamed { name, experts: None, cold }))
            },
        }
    }

    fn plan_router(&self, l: usize, nl: usize, rest: &[char], row: usize) -> (r: Result<
        Option<Renamed>,
        PlanError,
    >)
        requires
            self.counts_fit(),
        ensures
            renamed_view(r) == self.router_plan(l as nat, nl as nat, rest@, row),
            r matches Ok(Some(n)) ==> n.experts is Some ==> n.experts->Some_0@.len() <= u32::MAX,
    {
        let name: String = join_layer(nl, rest);
        match &self.experts {
            None => Ok(Some(Renamed { name, experts: None, cold: false })),
            Some(lists) => match layer_list(lists, l) {
                None => Err(PlanError::NoExpertList(row)),
                Some(list) => {
                    let copy: Vec<usize> = crate::cache::copy_of(list.as_slice());
                    Ok(Some(Renamed { name, experts: Some(copy), cold: false }))
                },
            },
        }
    }

    fn rename(&self, name: &str, chars: &[char], role: Role, row: usize) -> (r: Result<
        Option<Renamed>,
        PlanError,
    >)
        requires
            self.counts_fit(),
            chars@ == name@,
            role_in(name@, self.mla@, self.arch) == Some(role),
        ensures
            renamed_view(r) == self.renamed(name@, role, row),
            r matches Ok(Some(n)) ==> n.experts is Some ==> n.experts->Some_0@.len() <= u32::MAX,
    {
        match split_layer(chars) {
            None => {
                let copy: String = crate::unicode::text_of(chars);
                Ok(Some(Renamed { name: copy, experts: None, cold: false }))
            },
            Some((l, rest)) => match find_position(self.layers.as_slice(), l) {
                None => Ok(None),
                Some(nl) => {
                    if role == Role::Expert {
                        self.plan_expert(l, nl, rest.as_slice(), row)
                    } else if role == Role::RouterW || role == Role::RouterB {
                        self.plan_router(l, nl, rest.as_slice(), row)
                    } else {
                        let new: String = join_layer(nl, rest.as_slice());
                        Ok(Some(Renamed { name: new, experts: None, cold: false }))
                    }
                },
            },
        }
    }

    fn new_dims(
        &self,
        role: Role,
        dims: &[u32],
        experts: &Option<Vec<usize>>,
        cut: bool,
    ) -> (out: Vec<u32>)
        requires
            self.counts_fit(),
            cut ==> self.vocab is Some,
            role == Role::Copy || role == Role::Expert || dims@.len() > 0,
            role == Role::RowsD ==> dims@.len() >= 2,
            experts is Some ==> experts->Some_0@.len() <= u32::MAX,
        ensures
            out@ == cut_dims(
                role,
                dims@,
                self.channels@.len() as int,
                match experts {
                    Some(e) => Some(e@.len() as int),
                    None => None,
                },
                if cut {
                    Some(self.vocab->Some_0@.len() as int)
                } else {
                    None
                },
            ),
    {
        let ghost want = cut_dims(
            role,
            dims@,
            self.channels@.len() as int,
            match experts {
                Some(e) => Some(e@.len() as int),
                None => None,
            },
            if cut {
                Some(self.vocab->Some_0@.len() as int)
            } else {
                None
            },
        );
        if role == Role::Copy || role == Role::Expert {
            return crate::cache::copy_of(dims);
        }
        let n: u32 = self.channels.len() as u32;
        let kept: u32 = match experts {
            Some(e) => e.len() as u32,
            None => dims[0],
        };
        let rows: u32 = match &self.vocab {
            Some(v) => if cut {
                v.len() as u32
            } else {
                dims[0]
            },
            None => dims[0],
        };
        let out: Vec<u32> = match role {
            Role::VecD => vec![n],
            Role::ColsD => vec![rows, n],
            Role::RowsD => vec![n, dims[1]],
            Role::BothD => vec![n, n],
            Role::RouterW => vec![kept, n],
            _ => vec![kept],
        };
        proof {
            assert(out@ =~= want);
        }
        out
    }

    fn plan_tensor(&self, name: &str, e: &Entry, row: usize) -> (r: Result<
        Option<Plan>,
        PlanError,
    >)
        requires
            self.counts_fit(),
        ensures
            match r {
                Ok(Some(p)) => self.planned(name@, e@, row) == Ok::<Option<PlanView>, PlanError>(
                    Some(p@),
                ),
                Ok(None) => self.planned(name@, e@, row) == Ok::<Option<PlanView>, PlanError>(
                    None,
                ),
                Err(x) => self.planned(name@, e@, row) == Err::<Option<PlanView>, PlanError>(x),
            },
    {
        let chars: Vec<char> = chars_of(name);
        let role: Role = match role_of(chars.as_slice(), self.mla.as_slice(), self.arch) {
            None => {
                return Err(PlanError::UnknownTensor(row));
            },
            Some(role) => role,
        };
        let new: Renamed = match self.rename(name, chars.as_slice(), role, row) {
            Err(x) => {
                return Err(x);
            },
            Ok(None) => {
                return Ok(None);
            },
            Ok(Some(n)) => n,
        };
        if role != Role::Copy && role != Role::Expert && (e.dims.len() == 0 || (role == Role::RowsD
            && e.dims.len() < 2)) {
            return Err(PlanError::BadDims(row));
        }
        let cut: bool = self.vocab.is_some() && (same_text(chars.as_slice(), "embed_tokens.weight")
            || same_text(chars.as_slice(), "lm_head.weight"));
        let dims: Vec<u32> = self.new_dims(role, e.dims.as_slice(), &new.experts, cut);
        let dtype: u8 = if new.cold {
            DTYPE_VQ1
        } else {
            e.dtype
        };
        Ok(
            Some(
                Plan {
                    out_name: new.name,
                    dtype,
                    dims,
                    src: Some(row),
                    role,
                    experts: new.experts,
                    vocab: cut,
                },
            ),
        )
    }

    /// Plans the tensors of a directory, in its order.
    pub fn plan_all(&self, list: &Vec<(String, Entry)>) -> (r: Result<Vec<Plan>, PlanError>)
        requires
            self.counts_fit(),
        ensures
            match r {
                Ok(v) => self.plans_of(list@, list@.len() as int) == Ok::<
                    Seq<PlanView>,
                    PlanError,
                >(plan_views(v@)),
                Err(x) => self.plans_of(list@, list@.len() as int) == Err::<
                    Seq<PlanView>,
                    PlanError,
                >(x),
            },
    {
        let mut out: Vec<Plan> = Vec::new();
        proof {
            assert(plan_views(out@) =~= Seq::<PlanView>::empty());
        }
        for i in 0..list.len()
            invariant
                self.counts_fit(),
                self.plans_of(list@, i as int) == Ok::<Seq<PlanView>, PlanError>(
                    plan_views(out@),
                ),
        {
            let ghost before = out@;
            match self.plan_tensor(list[i].0.as_str(), &list[i].1, i) {
                Err(x) => {
                    proof {
                        self.lemma_first_fault(list@, i + 1, list@.len() as int);
                    }
                    return Err(x);
                },
                Ok(None) => {},
                Ok(Some(p)) => {
                    out.push(p);
                    proof {
                        assert(plan_views(out@) =~= plan_views(before).push(p@));
                    }
                },
            }
        }
        Ok(out)
    }

    proof fn lemma_first_fault(&self, list: Seq<(String, Entry)>, i: int, n: int)
        requires
            0 <= i <= n,
            self.plans_of(list, i) is Err,
        ensures
            self.plans_of(list, n) == self.plans_of(list, i),
        decreases n,
    {
        if i < n {
            self.lemma_first_fault(list, i, n - 1);
        }
    }
}

} // verus!
