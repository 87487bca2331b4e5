//! The agent registry: agents are appended in order, numbered by position, and
//! found by position, by name or by owner.
use vstd::prelude::*;
use crate::text::{concat3, clone_opt_text};

verus! {

#[derive(PartialEq, Eq, Structural, Clone, Copy, Debug)]
pub enum Platform {
    Windows,
    Linux,
    Both,
}

#[derive(Debug)]
pub struct AgentItem {
    pub id: u64,
    pub name: String,
    pub description: String,
    pub author: String,
    pub owner: String,
    pub platform: Option<Platform>,
    pub git_repo: String,
    pub homepage: Option<String>,
    pub input_params: Option<String>,
    pub output_example: Option<String>,
    pub image_url: Option<String>,
    pub exec_file_url: Option<String>,
    pub version: String,
}

impl Clone for AgentItem {
    fn clone(&self) -> (r: Self)
        ensures
            r == *self,
    {
        AgentItem {
            id: self.id,
            name: self.name.clone(),
            description: self.description.clone(),
            author: self.author.clone(),
            owner: self.owner.clone(),
            platform: self.platform,
            git_repo: self.git_repo.clone(),
            homepage: clone_opt_text(&self.homepage),
            input_params: clone_opt_text(&self.input_params),
            output_example: clone_opt_text(&self.output_example),
            image_url: clone_opt_text(&self.image_url),
            exec_file_url: clone_opt_text(&self.exec_file_url),
            version: self.version.clone(),
        }
    }
}

/// The key under which the owner index files an agent.
#[derive(Debug)]
pub struct UserAgentKey {
    pub owner: String,
    pub item_id: u64,
}

/// `item` with its number set to `id`.
pub open spec fn with_id(item: AgentItem, id: u64) -> AgentItem {
    AgentItem { id, ..item }
}

/// Whether agent `a` belongs to `owner`.
pub open spec fn owned_by(a: AgentItem, owner: Seq<char>) -> bool {
    a.owner@ == owner
}

/// The agents of `items` that `owner` owns, in order.
pub open spec fn owned_items(items: Seq<AgentItem>, owner: Seq<char>) -> Seq<AgentItem> {
    items.filter(|a: AgentItem| owned_by(a, owner))
}

/// The first position in `items` holding an agent named `name`.
pub open spec fn first_named(items: Seq<AgentItem>, name: Seq<char>, i: int) -> bool {
    0 <= i < items.len() && items[i].name@ == name && forall|j: int| 0 <= j < i ==> items[j].name@ != name
}

/// The agent registry.
pub struct AgentStore {
    items: Vec<AgentItem>,
}

impl AgentStore {
    /// The agents, in the order they were added.
    pub closed spec fn items(&self) -> Seq<AgentItem> {
        self.items@
    }

    /// Every agent carries its own position as its id.
    pub open spec fn wf(&self) -> bool {
        forall|i: int| 0 <= i < self.items().len() ==> (#[trigger] self.items()[i]).id == i
    }

    pub fn new() -> (s: Self)
        ensures
            s.wf(),
            s.items() == Seq::<AgentItem>::empty(),
    {
        AgentStore { items: Vec::new() }
    }

    /// Adds an agent at the end, numbered by its position; refused when an agent of
    /// the same name is already there.
    pub fn add_agent_item(&mut self, agent: AgentItem) -> (r: Result<u64, String>)
        requires
            old(self).wf(),
            old(self).items().len() < u64::MAX,
        ensures
            final(self).wf(),
            (exists|j: int| 0 <= j < old(self).items().len() && (#[trigger] old(self).items()[j]).name@ == agent.name@) ==> {
                &&& r matches Err(e) && e@ == "Agent with name '"@ + agent.name@ + "' already exists"@
                &&& final(self).items() == old(self).items()
            },
            !(exists|j: int| 0 <= j < old(self).items().len() && (#[trigger] old(self).items()[j]).name@ == agent.name@) ==> {
                &&& r == Ok::<u64, String>(old(self).items().len() as u64)
                &&& final(self).items() == old(self).items().push(with_id(agent, old(self).items().len() as u64))
            },
    {
        let n = self.items.len();
        for i in 0..n
            invariant
                n == self.items@.len(),
                self.items@ == old(self).items@,
                old(self).wf(),
                forall|j: int| 0 <= j < i ==> self.items@[j].name@ != agent.name@,
        {
            if self.items[i].name == agent.name {
                let msg = concat3("Agent with name '", agent.name.as_str(), "' already exists");
                return Err(msg);
            }
        }
        let index = n as u64;
        let mut agent = agent;
        agent.id = index;
        self.items.push(agent);
        Ok(index)
    }

    /// The agent at `index`.
    pub fn get_agent_item(&self, index: u64) -> (r: Option<AgentItem>)
        ensures
            r == (if index < self.items().len() { Some(self.items()[index as int]) } else { None::<AgentItem> }),
    {
        if (index as u128) < (self.items.len() as u128) {
            Some(self.items[index as usize].clone())
        } else {
            None
        }
    }

    /// All agents, in order.
    pub fn get_all_agent_items(&self) -> (r: Vec<AgentItem>)
        ensures
            r@ == self.items(),
    {
        let mut out: Vec<AgentItem> = Vec::new();
        for i in 0..self.items.len()
            invariant
                out@ == self.items@.subrange(0, i as int),
        {
            out.push(self.items[i].clone());
            proof {
                assert(out@ =~= self.items@.subrange(0, i + 1));
            }
        }
        assert(out@ =~= self.items@);
        out
    }

    /// The agents that `owner` owns, in order.
    pub fn get_user_agent_items(&self, owner: String) -> (r: Vec<AgentItem>)
        ensures
            r@ == owned_items(self.items(), owner@),
    {
        let mut out: Vec<AgentItem> = Vec::new();
        let n = self.items.len();
        for i in 0..n
            invariant
                n == self.items@.len(),
                out@ == owned_items(self.items@.take(i as int), owner@),
        {
            proof {
                reveal_with_fuel(Seq::<_>::filter, 1);
                assert(self.items@.take(i + 1).drop_last() =~= self.items@.take(i as int));
            }
            if self.items[i].owner == owner {
                out.push(self.items[i].clone());
            }
        }
        assert(self.items@.take(n as int) =~= self.items@);
        out
    }

    /// Replaces the agent at `index`, which keeps its number; refused when `index` is
    /// past the end or the owners differ.
    pub fn update_agent_item(&mut self, index: u64, agent: AgentItem) -> (r: Result<(), String>)
        requires
            old(self).wf(),
        ensures
            final(self).wf(),
            index >= old(self).items().len() ==> (r matches Err(e) && e@ == "Index out of bounds"@)
                && final(self).items() == old(self).items(),
            index < old(self).items().len() && old(self).items()[index as int].owner@ != agent.owner@ ==> (r matches Err(e)
                && e@ == "Only the owner can update this item"@) && final(self).items() == old(self).items(),
            index < old(self).items().len() && old(self).items()[index as int].owner@ == agent.owner@ ==> r is Ok
                && final(self).items() == old(self).items().update(index as int, with_id(agent, index)),
    {
        if (index as u128) < (self.items.len() as u128) {
            let i = index as usize;
            if self.items[i].owner != agent.owner {
                return Err("Only the owner can update this item".to_string());
            }
            let mut agent = agent;
            agent.id = index;
            self.items.set(i, agent);
            Ok(())
        } else {
            Err("Index out of bounds".to_string())
        }
    }

    /// At most `limit` agents from position `offset` on.
    pub fn get_agent_items_paginated(&self, offset: u64, limit: usize) -> (r: Vec<AgentItem>)
        requires
            offset + limit <= u64::MAX,
        ensures
            offset >= self.items().len() ==> r@ == Seq::<AgentItem>::empty(),
            offset < self.items().len() ==> r@ == self.items().subrange(
                offset as int,
                if offset + limit < self.items().len() { offset + limit } else { self.items().len() as int },
            ),
    {
        let total = self.items.len() as u64;
        if offset >= total {
            return Vec::new();
        }
        let end = if offset + (limit as u64) < total { offset + (limit as u64) } else { total };
        let mut out: Vec<AgentItem> = Vec::new();
        let mut i = offset;
        while i < end
            invariant
                offset <= i <= end,
                end <= total,
                total == self.items@.len(),
                self.items@.len() == self.items.len(),
                self.items.len() <= usize::MAX,
                out@ == self.items@.subrange(offset as int, i as int),
            decreases end - i,
        {
            assert(i < self.items@.len());
            let k = i as usize;
            assert(k == i);
            out.push(self.items[k].clone());
            proof {
                assert(out@ =~= self.items@.subrange(offset as int, i + 1));
            }
            i = i + 1;
        }
        out
    }

    /// The first agent named `name`.
    pub fn get_agent_item_by_name(&self, name: String) -> (r: Option<AgentItem>)
        ensures
            r is None <==> forall|j: int| 0 <= j < self.items().len() ==> self.items()[j].name@ != name@,
            r matches Some(a) ==> exists|i: int| first_named(self.items(), name@, i) && a == self.items()[i],
    {
        for i in 0..self.items.len()
            invariant
                forall|j: int| 0 <= j < i ==> self.items@[j].name@ != name@,
        {
            if self.items[i].name == name {
                assert(first_named(self.items@, name@, i as int));
                return Some(self.items[i].clone());
            }
        }
        None
    }
}

} // verus!
