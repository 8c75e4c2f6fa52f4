//! Local avoidance: how an agent bends the velocity it would like towards
//! one that keeps it clear of the others.

use vstd::prelude::*;
use crate::character::Character;
use crate::math::Vec3;

verus! {

/// What agents are steered with, the same for all agents of an archipelago.
#[derive(Clone, Copy, PartialEq, Eq, Structural, Debug)]
pub struct AgentOptions {
    /// How far from the navigation meshes an agent or a target may be and
    /// still count as on them.
    pub node_sample_distance: u32,
    /// How far ahead in time an agent looks for other agents.
    pub neighbourhood_time: u32,
    /// How far ahead in time an agent looks for obstacles.
    pub obstacle_avoidance_time: u32,
    /// How much of the avoiding an agent takes on itself, in thousandths.
    pub avoidance_responsibility: u32,
}

impl AgentOptions {
    /// The options of an archipelago that was given none.
    pub open spec fn default_spec() -> AgentOptions {
        AgentOptions {
            node_sample_distance: 100,
            neighbourhood_time: 5000,
            obstacle_avoidance_time: 1000,
            avoidance_responsibility: 1000,
        }
    }

    /// The options of an archipelago that was given none.
    #[verifier::when_used_as_spec(default_spec)]
    pub fn new() -> (r: AgentOptions)
        ensures
            r == AgentOptions::default_spec(),
    {
        AgentOptions {
            node_sample_distance: 100,
            neighbourhood_time: 5000,
            obstacle_avoidance_time: 1000,
            avoidance_responsibility: 1000,
        }
    }
}

/// What avoidance sees of an agent.
#[derive(Clone, Copy, PartialEq, Eq, Structural, Debug)]
pub struct AgentView {
    /// Where the agent is.
    pub position: Vec3,
    /// How the agent moves.
    pub velocity: Vec3,
    /// The radius of the agent.
    pub radius: u32,
    /// The greatest speed of the agent.
    pub max_speed: u32,
}

/// Local avoidance. The velocity that an agent should move with depends on
/// what is handed over alone: the agent, the other agents, the characters,
/// the velocity that the agent would like, and the options.
pub trait Avoidance {
    /// The velocity that `agent` should move with.
    spec fn avoid(
        &self,
        agent: AgentView,
        neighbors: Seq<AgentView>,
        characters: Seq<Character>,
        preferred_velocity: Vec3,
        options: AgentOptions,
    ) -> Vec3;

    /// The velocity that `agent` should move with.
    fn desired_velocity(
        &self,
        agent: &AgentView,
        neighbors: &Vec<AgentView>,
        characters: &Vec<Character>,
        preferred_velocity: Vec3,
        options: &AgentOptions,
    ) -> (r: Vec3)
        ensures
            r == self.avoid(*agent, neighbors@, characters@, preferred_velocity, *options),
    ;
}

/// No avoidance: every agent moves with the velocity it would like.
pub struct NoAvoidance;

impl Avoidance for NoAvoidance {
    open spec fn avoid(
        &self,
        agent: AgentView,
        neighbors: Seq<AgentView>,
        characters: Seq<Character>,
        preferred_velocity: Vec3,
        options: AgentOptions,
    ) -> Vec3 {
        preferred_velocity
    }

    fn desired_velocity(
        &self,
        agent: &AgentView,
        neighbors: &Vec<AgentView>,
        characters: &Vec<Character>,
        preferred_velocity: Vec3,
        options: &AgentOptions,
    ) -> (r: Vec3) {
        preferred_velocity
    }
}

} // verus!
