//! The archipelago: islands, agents and characters, and the update that
//! steers the agents.

use vstd::prelude::*;
use crate::agent::{Agent, AgentId, AgentState};
use crate::avoidance::{AgentOptions, AgentView, Avoidance};
use crate::steering::{agent_ticked, lemma_agent_settles, tick_agent, view_of};
use crate::character::{Character, CharacterId};
use crate::island::{Island, IslandId, NodeType};
use crate::math::Vec3;
use crate::nav_data::{NavigationData, NewNodeTypeError, SetNodeTypeCostError};
use crate::query::{FindPathError, SamplePointError, SampledPoint};
use crate::slots::{lemma_place, lemma_place_after_push, lemma_place_after_remove, Arena};

verus! {

/// Islands to walk on, agents that walk, and characters in their way.
pub struct Archipelago {
    /// What the agents are steered with.
    pub(crate) agent_options: AgentOptions,
    /// The islands, their links and the node types.
    pub(crate) nav_data: NavigationData,
    /// The agents.
    pub(crate) agents: Arena<Agent>,
    /// The characters.
    pub(crate) characters: Arena<Character>,
}

impl Archipelago {
    /// The islands, their links and the node types.
    pub open(crate) spec fn nav(&self) -> NavigationData {
        self.nav_data
    }

    /// What the agents are steered with.
    pub open(crate) spec fn options(&self) -> AgentOptions {
        self.agent_options
    }

    /// The agents.
    pub open(crate) spec fn all_agents(&self) -> Arena<Agent> {
        self.agents
    }

    /// The characters.
    pub open(crate) spec fn all_characters(&self) -> Arena<Character> {
        self.characters
    }

    /// Whether the archipelago has the agent `id`.
    pub open(crate) spec fn has_agent(&self, id: AgentId) -> bool {
        self.agents.contains(id.0)
    }

    /// The agent `id`.
    pub open(crate) spec fn agent(&self, id: AgentId) -> Agent {
        self.agents.value(id.0)
    }

    /// The ids of the agents, in the order in which they were added.
    pub open(crate) spec fn agent_ids(&self) -> Seq<AgentId> {
        Seq::new(self.agents.ids().len(), |k: int| AgentId(self.agents.ids()[k]))
    }

    /// Whether the archipelago has the character `id`.
    pub open(crate) spec fn has_character(&self, id: CharacterId) -> bool {
        self.characters.contains(id.0)
    }

    /// The character `id`.
    pub open(crate) spec fn character(&self, id: CharacterId) -> Character {
        self.characters.value(id.0)
    }

    /// The ids of the characters, in the order in which they were added.
    pub open(crate) spec fn character_ids(&self) -> Seq<CharacterId> {
        Seq::new(self.characters.ids().len(), |k: int| CharacterId(self.characters.ids()[k]))
    }

    /// Whether another agent can be added: an archipelago can hand out
    /// fewer than `u32::MAX` agent ids in all.
    pub open(crate) spec fn can_add_agent(&self) -> bool {
        self.agents.has_room()
    }

    /// Whether another character can be added.
    pub open(crate) spec fn can_add_character(&self) -> bool {
        self.characters.has_room()
    }

    /// What holds of an archipelago at all times.
    pub open(crate) spec fn wf(&self) -> bool {
        &&& self.nav_data.wf()
        &&& self.agents.wf()
        &&& self.characters.wf()
    }

    /// An archipelago without islands, agents or characters.
    pub fn new() -> (r: Archipelago)
        ensures
            r.wf(),
            r.agent_ids().len() == 0,
            r.character_ids().len() == 0,
            r.nav().island_ids().len() == 0,
            !r.nav().is_dirty(),
            r.options() == AgentOptions::default_spec(),
            r.can_add_agent(),
            r.can_add_character(),
            r.nav().can_add_island(),
            r.nav().can_add_node_type(),
    {
        Archipelago {
            agent_options: AgentOptions::new(),
            nav_data: NavigationData::new(),
            agents: Arena::new(),
            characters: Arena::new(),
        }
    }

    /// What the agents are steered with.
    pub fn get_agent_options(&self) -> (r: &AgentOptions)
        ensures
            *r == self.options(),
    {
        &self.agent_options
    }

    /// What the agents are steered with, to be changed.
    pub fn get_agent_options_mut(&mut self) -> (r: &mut AgentOptions)
        ensures
            *r == old(self).options(),
            final(self).options() == *final(r),
            final(self).nav() == old(self).nav(),
            final(self).all_agents() == old(self).all_agents(),
            final(self).all_characters() == old(self).all_characters(),
    {
        &mut self.agent_options
    }

    /// The navigation data.
    pub fn get_nav_data(&self) -> (r: &NavigationData)
        ensures
            *r == self.nav(),
    {
        &self.nav_data
    }

    /// Whether another island can be added.
    pub fn has_room_for_island(&self) -> (r: bool)
        ensures
            r == self.nav().can_add_island(),
    {
        self.nav_data.has_room_for_island()
    }

    /// Whether another node type can be added.
    pub fn has_room_for_node_type(&self) -> (r: bool)
        ensures
            r == self.nav().can_add_node_type(),
    {
        self.nav_data.has_room_for_node_type()
    }

    /// Whether another agent can be added.
    pub fn has_room_for_agent(&self) -> (r: bool)
        ensures
            r == self.can_add_agent(),
    {
        self.agents.can_insert()
    }

    /// Whether another character can be added.
    pub fn has_room_for_character(&self) -> (r: bool)
        ensures
            r == self.can_add_character(),
    {
        self.characters.can_insert()
    }

    /// Adds an island without navigation data and returns its id.
    pub fn add_island(&mut self) -> (id: IslandId)
        requires
            old(self).wf(),
            old(self).nav().can_add_island(),
        ensures
            final(self).wf(),
            !old(self).nav().has_island(id),
            final(self).nav().has_island(id),
            !final(self).nav().island(id).has_nav_data(),
            final(self).nav().island_ids() == old(self).nav().island_ids().push(id),
            final(self).nav().is_dirty(),
            final(self).all_agents() == old(self).all_agents(),
            final(self).all_characters() == old(self).all_characters(),
            final(self).options() == old(self).options(),
    {
        self.nav_data.add_island()
    }

    /// Removes the island `id`. Returns whether the archipelago had it.
    pub fn remove_island(&mut self, id: IslandId) -> (r: bool)
        requires
            old(self).wf(),
        ensures
            final(self).wf(),
            r == old(self).nav().has_island(id),
            !final(self).nav().has_island(id),
            r ==> final(self).nav().is_dirty(),
            !r ==> *final(self) == *old(self),
            final(self).all_agents() == old(self).all_agents(),
            final(self).all_characters() == old(self).all_characters(),
            final(self).options() == old(self).options(),
    {
        self.nav_data.remove_island(id)
    }

    /// The island `id`, if the archipelago has it.
    pub fn get_island(&self, id: IslandId) -> (r: Option<&Island>)
        requires
            self.wf(),
        ensures
            r is Some == self.nav().has_island(id),
            r is Some ==> *r->0 == self.nav().island(id),
    {
        self.nav_data.get_island(id)
    }

    /// The island `id`, to be changed, if the archipelago has it. Since the
    /// island may change, the links count as out of date from now on.
    pub fn get_island_mut(&mut self, id: IslandId) -> (r: Option<&mut Island>)
        requires
            old(self).wf(),
        ensures
            match r {
                Some(island) => {
                    &&& old(self).nav().has_island(id)
                    &&& *island == old(self).nav().island(id)
                    &&& final(self).nav().island(id) == *final(island)
                    &&& old(self).nav().only_island_changed(final(self).nav(), id)
                    &&& old(self).nav().only_island_changed(final(self).nav(), id) && final(island).wf() ==> final(self).wf()
                    &&& final(self).all_agents() == old(self).all_agents()
                    &&& final(self).all_characters() == old(self).all_characters()
                    &&& final(self).options() == old(self).options()
                },
                None => !old(self).nav().has_island(id) && *final(self) == *old(self),
            },
    {
        self.nav_data.get_island_mut(id)
    }

    /// Makes a node type with the given cost: what a unit of distance costs
    /// on its polygons, in thousandths.
    pub fn add_node_type(&mut self, cost: u32) -> (r: Result<NodeType, NewNodeTypeError>)
        requires
            old(self).wf(),
            old(self).nav().can_add_node_type(),
        ensures
            final(self).wf(),
            match r {
                Ok(t) => cost > 0 && !old(self).nav().has_node_type(t) && final(self).nav().has_node_type(t) && final(self).nav().node_type_cost(t) == cost,
                Err(e) => cost == 0 && e == NewNodeTypeError::NonPositiveCost(cost) && *final(self)
                    == *old(self),
            },
    {
        self.nav_data.add_node_type(cost)
    }

    /// Sets the cost of a node type.
    pub fn set_node_type_cost(&mut self, node_type: NodeType, cost: u32) -> (r: Result<
        (),
        SetNodeTypeCostError,
    >)
        requires
            old(self).wf(),
        ensures
            final(self).wf(),
            match r {
                Ok(()) => cost > 0 && old(self).nav().has_node_type(node_type) && final(self).nav().node_type_cost(node_type) == cost,
                Err(e) => {
                    &&& *final(self) == *old(self)
                    &&& e == (if cost == 0 {
                        SetNodeTypeCostError::NonPositiveCost(cost)
                    } else {
                        SetNodeTypeCostError::NodeTypeDoesNotExist(node_type)
                    })
                    &&& cost == 0 || !old(self).nav().has_node_type(node_type)
                },
            },
    {
        self.nav_data.set_node_type_cost(node_type, cost)
    }

    /// The cost of a node type, if the archipelago has it.
    pub fn get_node_type_cost(&self, node_type: NodeType) -> (r: Option<u32>)
        requires
            self.wf(),
        ensures
            r is Some == self.nav().has_node_type(node_type),
            r is Some ==> r->0 == self.nav().node_type_cost(node_type) && r->0 > 0,
    {
        self.nav_data.get_node_type_cost(node_type)
    }

    /// Removes a node type, unless the archipelago does not have it or an
    /// island still gives it to a type index. Returns whether it was removed.
    pub fn remove_node_type(&mut self, node_type: NodeType) -> (r: bool)
        requires
            old(self).wf(),
        ensures
            final(self).wf(),
            r == (old(self).nav().has_node_type(node_type) && !old(self).nav().node_type_in_use(
                node_type,
            )),
            r ==> !final(self).nav().has_node_type(node_type),
            !r ==> *final(self) == *old(self),
    {
        self.nav_data.remove_node_type(node_type)
    }

    /// Adds an agent and returns its id.
    pub fn add_agent(&mut self, agent: Agent) -> (id: AgentId)
        requires
            old(self).wf(),
            old(self).can_add_agent(),
        ensures
            final(self).wf(),
            !old(self).has_agent(id),
            final(self).has_agent(id),
            final(self).agent(id) == agent,
            final(self).agent_ids() == old(self).agent_ids().push(id),
            forall|other: AgentId| #[trigger]
                old(self).has_agent(other) ==> final(self).has_agent(other) && final(self).agent(
                    other,
                ) == old(self).agent(other),
            final(self).nav() == old(self).nav(),
            final(self).all_characters() == old(self).all_characters(),
            final(self).options() == old(self).options(),
    {
        let key = self.agents.insert(agent);
        proof {
            assert(final(self).agent_ids() =~= old(self).agent_ids().push(AgentId(key)));
            lemma_place_after_push(old(self).agents.ids(), key, key);
            assert forall|other: AgentId| #[trigger] old(self).has_agent(other) implies final(self).has_agent(other) && final(self).agent(other) == old(self).agent(other) by {
                lemma_place_after_push(old(self).agents.ids(), key, other.0);
                let j = old(self).agents.place(other.0);
                assert(0 <= j < old(self).agents.ids().len());
            }
        }
        AgentId(key)
    }

    /// Removes the agent `id` and returns it, if the archipelago has it.
    pub fn remove_agent(&mut self, id: AgentId) -> (r: Option<Agent>)
        requires
            old(self).wf(),
        ensures
            final(self).wf(),
            r is Some == old(self).has_agent(id),
            r is Some ==> r->0 == old(self).agent(id),
            !final(self).has_agent(id),
            forall|other: AgentId| #[trigger]
                old(self).has_agent(other) && other != id ==> final(self).has_agent(other)
                    && final(self).agent(other) == old(self).agent(other),
            final(self).nav() == old(self).nav(),
            final(self).all_characters() == old(self).all_characters(),
            final(self).options() == old(self).options(),
    {
        let removed = self.agents.remove(id.0);
        proof {
            if removed is Some {
                let before = old(self).agents;
                let k = before.place(id.0);
                assert(0 <= k < before.ids().len() && before.ids()[k] == id.0);
                assert forall|other: AgentId| #[trigger]
                    old(self).has_agent(other) && other != id implies final(self).has_agent(other)
                    && final(self).agent(other) == old(self).agent(other) by {
                    lemma_place_after_remove(before.ids(), k, other.0);
                    let j = before.place(other.0);
                    assert(0 <= j < before.ids().len() && before.ids()[j] == other.0);
                }
            }
        }
        removed
    }

    /// The agent `id`, if the archipelago has it.
    pub fn get_agent(&self, id: AgentId) -> (r: Option<&Agent>)
        requires
            self.wf(),
        ensures
            r is Some == self.has_agent(id),
            r is Some ==> *r->0 == self.agent(id),
    {
        self.agents.get(id.0)
    }

    /// The agent `id`, to be changed, if the archipelago has it.
    pub fn get_agent_mut(&mut self, id: AgentId) -> (r: Option<&mut Agent>)
        requires
            old(self).wf(),
        ensures
            match r {
                Some(agent) => {
                    &&& old(self).has_agent(id)
                    &&& *agent == old(self).agent(id)
                    &&& final(self).wf()
                    &&& final(self).has_agent(id)
                    &&& final(self).agent(id) == *final(agent)
                    &&& final(self).all_agents().ids() == old(self).all_agents().ids()
                    &&& final(self).nav() == old(self).nav()
                    &&& final(self).all_characters() == old(self).all_characters()
                    &&& final(self).options() == old(self).options()
                },
                None => !old(self).has_agent(id) && *final(self) == *old(self),
            },
    {
        self.agents.get_mut(id.0)
    }

    /// Adds a character and returns its id.
    pub fn add_character(&mut self, character: Character) -> (id: CharacterId)
        requires
            old(self).wf(),
            old(self).can_add_character(),
        ensures
            final(self).wf(),
            !old(self).has_character(id),
            final(self).has_character(id),
            final(self).character(id) == character,
            final(self).character_ids() == old(self).character_ids().push(id),
            final(self).nav() == old(self).nav(),
            final(self).all_agents() == old(self).all_agents(),
            final(self).options() == old(self).options(),
    {
        let key = self.characters.insert(character);
        proof {
            assert(final(self).character_ids() =~= old(self).character_ids().push(
                CharacterId(key),
            ));
            lemma_place_after_push(old(self).characters.ids(), key, key);
        }
        CharacterId(key)
    }

    /// Removes the character `id` and returns it, if the archipelago has it.
    pub fn remove_character(&mut self, id: CharacterId) -> (r: Option<Character>)
        requires
            old(self).wf(),
        ensures
            final(self).wf(),
            r is Some == old(self).has_character(id),
            r is Some ==> r->0 == old(self).character(id),
            !final(self).has_character(id),
            final(self).nav() == old(self).nav(),
            final(self).all_agents() == old(self).all_agents(),
            final(self).options() == old(self).options(),
    {
        self.characters.remove(id.0)
    }

    /// The character `id`, if the archipelago has it.
    pub fn get_character(&self, id: CharacterId) -> (r: Option<&Character>)
        requires
            self.wf(),
        ensures
            r is Some == self.has_character(id),
            r is Some ==> *r->0 == self.character(id),
    {
        self.characters.get(id.0)
    }

    /// The character `id`, to be changed, if the archipelago has it.
    pub fn get_character_mut(&mut self, id: CharacterId) -> (r: Option<&mut Character>)
        requires
            old(self).wf(),
        ensures
            match r {
                Some(character) => {
                    &&& old(self).has_character(id)
                    &&& *character == old(self).character(id)
                    &&& final(self).wf()
                    &&& final(self).has_character(id)
                    &&& final(self).character(id) == *final(character)
                    &&& final(self).nav() == old(self).nav()
                    &&& final(self).all_agents() == old(self).all_agents()
                    &&& final(self).options() == old(self).options()
                },
                None => !old(self).has_character(id) && *final(self) == *old(self),
            },
    {
        self.characters.get_mut(id.0)
    }
}

impl Archipelago {
    /// The ids of the agents, in the order in which they were added.
    pub fn get_agent_ids(&self) -> (r: Vec<AgentId>)
        requires
            self.wf(),
        ensures
            r@ == self.agent_ids(),
    {
        let mut ids: Vec<AgentId> = Vec::new();
        let mut k: usize = 0;
        while k < self.agents.ids.len()
            invariant
                k <= self.agents.ids.len(),
                ids@ == self.agent_ids().take(k as int),
            decreases self.agents.ids.len() - k,
        {
            ids.push(AgentId(self.agents.ids[k]));
            proof {
                assert(ids@ =~= self.agent_ids().take(k as int + 1));
            }
            k = k + 1;
        }
        proof {
            assert(ids@ =~= self.agent_ids());
        }
        ids
    }

    /// The point of the islands nearest to `point` among those nearer than
    /// `distance_to_node`, once the islands are up to date.
    pub fn sample_point(&self, point: Vec3, distance_to_node: u32) -> (r: Result<
        SampledPoint,
        SamplePointError,
    >)
        requires
            self.wf(),
        ensures
            match r {
                Ok(sampled) => {
                    &&& !self.nav().is_dirty()
                    &&& self.nav().sample(point, distance_to_node) == Some(
                        (sampled.point, sampled.node_ref),
                    )
                    &&& self.nav().has_node(sampled.node_ref)
                },
                Err(SamplePointError::NavDataDirty) => self.nav().is_dirty(),
                Err(SamplePointError::OutOfRange) => !self.nav().is_dirty() && self.nav().sample(
                    point,
                    distance_to_node,
                ) is None,
            },
    {
        crate::query::sample_point(self, point, distance_to_node)
    }
}

/// What avoidance sees of the agents but the one at place `k`.
pub open spec fn neighbors_of(agents: Seq<Agent>, k: int) -> Seq<AgentView> {
    Seq::new(agents.len(), |j: int| view_of(agents[j])).remove(k)
}

impl Archipelago {
    /// What an update makes of this archipelago. An update of no duration
    /// changes nothing. Else the links are brought up to date, and each
    /// agent is dealt with, on the islands as they then are, among the other
    /// agents as they were before the update.
    pub open(crate) spec fn ticked<A: Avoidance>(
        &self,
        after: Archipelago,
        avoidance: &A,
        delta_time: u32,
    ) -> bool {
        if delta_time == 0 {
            after == *self
        } else {
            &&& after.wf()
            &&& after.nav_data.updated_from(self.nav_data)
            &&& after.agent_options == self.agent_options
            &&& after.characters == self.characters
            &&& after.agents.ids() == self.agents.ids()
            &&& after.agents.has_room() == self.agents.has_room()
            &&& after.agents.values().len() == self.agents.values().len()
            &&& forall|k: int|
                0 <= k < self.agents.values().len() ==> agent_ticked(
                    avoidance,
                    &after.nav_data,
                    self.agents.values()[k],
                    #[trigger] after.agents.values()[k],
                    neighbors_of(self.agents.values(), k),
                    self.characters.values(),
                    self.agent_options,
                )
        }
    }

    /// Steers the agents. With no time since the last update nothing
    /// happens. Else the links between the islands are brought up to date;
    /// then every agent finds itself and its target on the islands, goes on
    /// with its path or gets a new one, and learns what it is doing and how
    /// it should move.
    pub fn update<A: Avoidance>(&mut self, delta_time: u32, avoidance: &A)
        requires
            old(self).wf(),
        ensures
            final(self).wf(),
            old(self).ticked(*final(self), avoidance, delta_time),
    {
        if delta_time == 0 {
            return ;
        }
        self.nav_data.update();
        let ghost before = self.agents;
        let total: usize = self.agents.values.len();
        let mut views: Vec<AgentView> = Vec::new();
        let mut k: usize = 0;
        while k < total
            invariant
                k <= total,
                total == self.agents.values().len(),
                self.agents == before,
                views.len() == k,
                forall|j: int| 0 <= j < k ==> #[trigger] views[j] == view_of(before.values()[j]),
            decreases total - k,
        {
            let agent = &self.agents.values[k];
            views.push(
                AgentView {
                    position: agent.position,
                    velocity: agent.velocity,
                    radius: agent.radius,
                    max_speed: agent.max_speed,
                },
            );
            k = k + 1;
        }
        proof {
            assert(views@ =~= Seq::new(before.values().len(), |j: int| view_of(before.values()[j])));
        }
        let mut k: usize = 0;
        while k < total
            invariant
                k <= total,
                total == before.values().len(),
                self.nav_data.wf(),
                !self.nav_data.is_dirty(),
                self.nav_data.updated_from(old(self).nav_data),
                self.agent_options == old(self).agent_options,
                self.characters == old(self).characters,
                before == old(self).agents,
                before.wf(),
                self.agents.ids == before.ids,
                self.agents.keys == before.keys,
                self.agents.issued == before.issued,
                self.agents.values().len() == total,
                views@ == Seq::new(before.values().len(), |j: int| view_of(before.values()[j])),
                forall|j: int| k <= j < total ==> self.agents.values()[j] == before.values()[j],
                forall|j: int|
                    0 <= j < k ==> agent_ticked(
                        avoidance,
                        &self.nav_data,
                        before.values()[j],
                        #[trigger] self.agents.values()[j],
                        neighbors_of(before.values(), j),
                        self.characters.values(),
                        self.agent_options,
                    ),
            decreases total - k,
        {
            let mut neighbors: Vec<AgentView> = Vec::new();
            let mut j: usize = 0;
            while j < total
                invariant
                    j <= total,
                    k < total,
                    total == views.len(),
                    j <= k ==> neighbors@ == views@.take(j as int),
                    j > k ==> neighbors@ == views@.remove(k as int).take(j - 1),
                decreases total - j,
            {
                if j != k {
                    neighbors.push(views[j]);
                }
                proof {
                    if j < k {
                        assert(neighbors@ =~= views@.take(j as int + 1));
                    } else {
                        assert(neighbors@ =~= views@.remove(k as int).take(j as int));
                    }
                }
                j = j + 1;
            }
            proof {
                assert(neighbors@ =~= views@.remove(k as int));
            }
            let ghost agents_before = self.agents.values();
            tick_agent(
                &mut self.agents.values[k],
                &self.nav_data,
                &neighbors,
                &self.characters.values,
                &self.agent_options,
                avoidance,
            );
            proof {
                assert forall|j: int| 0 <= j < k + 1 implies agent_ticked(
                    avoidance,
                    &self.nav_data,
                    before.values()[j],
                    #[trigger] self.agents.values()[j],
                    neighbors_of(before.values(), j),
                    self.characters.values(),
                    self.agent_options,
                ) by {
                    if j < k {
                        assert(self.agents.values()[j] == agents_before[j]);
                    }
                }
            }
            k = k + 1;
        }
    }
}

/// After an update, another update changes nothing that the agents do, as
/// long as nothing else has changed in between: every agent is in the state
/// it was in, and should move as it should before.
pub proof fn lemma_update_settles<A: Avoidance>(
    first: Archipelago,
    second: Archipelago,
    third: Archipelago,
    avoidance: &A,
    delta_time: u32,
    id: AgentId,
)
    requires
        first.ticked(second, avoidance, delta_time),
        second.ticked(third, avoidance, delta_time),
        second.has_agent(id),
    ensures
        third.has_agent(id),
        third.agent(id).agent_state() == second.agent(id).agent_state(),
        third.agent(id).desired_velocity() == second.agent(id).desired_velocity(),
{
    if delta_time != 0 {
        let k = second.agents.place(id.0);
        assert(0 <= k < second.agents.ids().len() && second.agents.ids()[k] == id.0);
        assert(third.nav_data == second.nav_data);
        let a = first.agents.values()[k];
        let b = second.agents.values()[k];
        let c = third.agents.values()[k];
        assert(agent_ticked(
            avoidance,
            &second.nav_data,
            a,
            b,
            neighbors_of(first.agents.values(), k),
            first.characters.values(),
            first.agent_options,
        ));
        assert(agent_ticked(
            avoidance,
            &third.nav_data,
            b,
            c,
            neighbors_of(second.agents.values(), k),
            second.characters.values(),
            second.agent_options,
        ));
        assert(neighbors_of(second.agents.values(), k) =~= neighbors_of(
            first.agents.values(),
            k,
        )) by {
            assert forall|j: int| 0 <= j < first.agents.values().len() implies view_of(
                second.agents.values()[j],
            ) == view_of(first.agents.values()[j]) by {
                assert(agent_ticked(
                    avoidance,
                    &second.nav_data,
                    first.agents.values()[j],
                    second.agents.values()[j],
                    neighbors_of(first.agents.values(), j),
                    first.characters.values(),
                    first.agent_options,
                ));
            }
            assert(Seq::new(
                second.agents.values().len(),
                |j: int| view_of(second.agents.values()[j]),
            ) =~= Seq::new(first.agents.values().len(), |j: int| view_of(first.agents.values()[j])));
        }
        lemma_agent_settles(
            avoidance,
            &second.nav_data,
            a,
            b,
            c,
            neighbors_of(first.agents.values(), k),
            first.characters.values(),
            first.agent_options,
        );
    }
}

} // verus!
