//! Shader modules by name and stage, and the reading of the small JSON
//! configuration that says which shader files make up a named shader.
use std::collections::HashMap;
use std::sync::Arc;
use vstd::prelude::*;

use crate::engine::graphics::name_map::NameMap;

verus! {

/// Which programmable stage a shader module is for.
#[derive(Clone, Copy, Debug, PartialEq, Eq, Structural)]
pub enum ShaderStage {
    Vertex,
    Fragment,
    Compute,
}

/// At most one shader module (`S`) per stage.
pub struct StageTable<S> {
    vertex: Option<Arc<S>>,
    fragment: Option<Arc<S>>,
    compute: Option<Arc<S>>,
}

impl<S> StageTable<S> {
    /// The module stored for `stage`, if any.
    pub closed spec fn at(&self, stage: ShaderStage) -> Option<Arc<S>> {
        match stage {
            ShaderStage::Vertex => self.vertex,
            ShaderStage::Fragment => self.fragment,
            ShaderStage::Compute => self.compute,
        }
    }

    /// No module for any stage.
    pub fn new() -> (t: Self)
        ensures
            forall|st: ShaderStage| #[trigger] t.at(st) is None,
    {
        StageTable { vertex: None, fragment: None, compute: None }
    }

    /// The module stored for `stage`, if any.
    pub fn get(&self, stage: ShaderStage) -> (r: Option<&Arc<S>>)
        ensures
            match r {
                Some(s) => self.at(stage) == Some(*s),
                None => self.at(stage) is None,
            },
    {
        match stage {
            ShaderStage::Vertex => self.vertex.as_ref(),
            ShaderStage::Fragment => self.fragment.as_ref(),
            ShaderStage::Compute => self.compute.as_ref(),
        }
    }

    /// Stores `shader` for `stage`, replacing what was there.
    pub fn insert(&mut self, stage: ShaderStage, shader: Arc<S>)
        ensures
            final(self).at(stage) == Some(shader),
            forall|st: ShaderStage| st != stage ==> #[trigger] final(self).at(st) == old(self).at(st),
    {
        match stage {
            ShaderStage::Vertex => {
                self.vertex = Some(shader);
            },
            ShaderStage::Fragment => {
                self.fragment = Some(shader);
            },
            ShaderStage::Compute => {
                self.compute = Some(shader);
            },
        }
    }
}

/// The table made by storing each module of `created` under its stage, in
/// order, so that a later module replaces an earlier one for the same stage.
pub open spec fn table_of<S>(created: Seq<(ShaderStage, Arc<S>)>, stage: ShaderStage) -> Option<
    Arc<S>,
>
    decreases created.len(),
{
    if created.len() == 0 {
        None
    } else if created.last().0 == stage {
        Some(created.last().1)
    } else {
        table_of(created.drop_last(), stage)
    }
}

/// Shader modules (`S`) by the name of the shader and then by stage.
#[allow(non_snake_case)]
pub struct ShaderManager<S> {
    pub ShaderManager: NameMap<StageTable<S>>,
}

impl<S> ShaderManager<S> {
    /// No shaders.
    pub fn new() -> (m: Self)
        ensures
            m.ShaderManager.view() == Map::<Seq<char>, StageTable<S>>::empty(),
    {
        ShaderManager { ShaderManager: NameMap::new() }
    }

    /// Stores, under `name`, a table holding the modules of `created`, each
    /// under its stage (a later module replaces an earlier one of the same
    /// stage); a table already stored under `name` is replaced.
    pub fn add_shaders(&mut self, name: String, created: Vec<(ShaderStage, Arc<S>)>)
        ensures
            final(self).ShaderManager.view().dom() == old(self).ShaderManager.view().dom().insert(
                name@,
            ),
            forall|st: ShaderStage| #[trigger]
                final(self).ShaderManager.view()[name@].at(st) == table_of(created@, st),
            forall|k: Seq<char>|
                k != name@ ==> #[trigger] final(self).ShaderManager.view().get(k) == old(
                    self,
                ).ShaderManager.view().get(k),
    {
        let ghost c = created@;
        let n = created.len();
        let mut table: StageTable<S> = StageTable::new();
        let mut source = created;
        let mut stack: Vec<(ShaderStage, Arc<S>)> = Vec::new();
        while source.len() > 0
            invariant
                n == c.len(),
                source@.len() <= n,
                source@ == c.take(source@.len() as int),
                stack@.len() == n - source@.len(),
                forall|j: int| 0 <= j < stack@.len() ==> #[trigger] stack@[j] == c[n - 1 - j],
            decreases source@.len(),
        {
            let ghost len = source@.len();
            let x = source.pop().unwrap();
            assert(x == c[len - 1]);
            stack.push(x);
            assert(source@ =~= c.take(source@.len() as int));
        }
        let mut k: usize = 0;
        assert forall|st: ShaderStage| #[trigger] table.at(st) == table_of(c.take(0), st) by {
            assert(c.take(0).len() == 0);
        }
        while k < n
            invariant
                n == c.len(),
                0 <= k <= n,
                stack@.len() == n - k,
                forall|j: int| 0 <= j < stack@.len() ==> #[trigger] stack@[j] == c[n - 1 - j],
                forall|st: ShaderStage| #[trigger] table.at(st) == table_of(c.take(k as int), st),
            decreases n - k,
        {
            let (stage, shader) = stack.pop().unwrap();
            assert((stage, shader) == c[k as int]);
            let ghost t1 = c.take(k as int + 1);
            assert(t1.drop_last() =~= c.take(k as int));
            assert(t1.last() == c[k as int]);
            table.insert(stage, shader);
            k = k + 1;
        }
        assert(c.take(n as int) =~= c);
        self.ShaderManager.insert(name, table);
    }

    /// The vertex and fragment modules of the shader `name`, or `None` when
    /// there is no such shader or it lacks one of the two.
    pub fn render_stages(&self, name: &String) -> (r: Option<(&Arc<S>, &Arc<S>)>)
        ensures
            match r {
                Some((v, f)) => {
                    &&& self.ShaderManager.view().contains_key(name@)
                    &&& self.ShaderManager.view()[name@].at(ShaderStage::Vertex) == Some(*v)
                    &&& self.ShaderManager.view()[name@].at(ShaderStage::Fragment) == Some(*f)
                },
                None => !self.ShaderManager.view().contains_key(name@) || self.ShaderManager.view()[name@].at(
                    ShaderStage::Vertex,
                ) is None || self.ShaderManager.view()[name@].at(ShaderStage::Fragment) is None,
            },
    {
        let table = match self.ShaderManager.get(name) {
            Some(t) => t,
            None => {
                return None;
            },
        };
        let vertex = match table.get(ShaderStage::Vertex) {
            Some(s) => s,
            None => {
                return None;
            },
        };
        let fragment = match table.get(ShaderStage::Fragment) {
            Some(s) => s,
            None => {
                return None;
            },
        };
        Some((vertex, fragment))
    }
}

/// The map of string pairs `v` (the first pair with a key wins).
pub open spec fn pairs_map(v: Seq<(String, String)>) -> Map<Seq<char>, Seq<char>> {
    Map::new(
        |k: Seq<char>| exists|i: int| 0 <= i < v.len() && (#[trigger] v[i]).0@ == k,
        |k: Seq<char>| v[choose|i: int| 0 <= i < v.len() && (#[trigger] v[i]).0@ == k].1@,
    )
}

/// No key occurs twice among the pairs.
pub open spec fn keys_distinct(v: Seq<(String, String)>) -> bool {
    forall|i: int, j: int|
        0 <= i < v.len() && 0 <= j < v.len() && i != j ==> (#[trigger] v[i]).0@ != (#[trigger] v[
            j]).0@
}

/// What `serde_json` reads from a text as a JSON object whose values are all
/// strings, if the text is one.
pub uninterp spec fn json_string_object(text: Seq<char>) -> Option<Map<Seq<char>, Seq<char>>>;

/// `serde_json::from_str` into a map from strings to strings; the entries are
/// handed back as pairs, in no stated order.
#[verifier::external_body]
fn parse_string_map(text: &str) -> (r: Option<Vec<(String, String)>>)
    ensures
        match r {
            None => json_string_object(text@) is None,
            Some(v) => json_string_object(text@) == Some(pairs_map(v@)) && keys_distinct(v@),
        },
{
    serde_json::from_str::<HashMap<String, String>>(text).ok().map(|m| m.into_iter().collect())
}

/// The value stored under `key` among the pairs.
fn lookup(pairs: &Vec<(String, String)>, key: &String) -> (r: Option<String>)
    requires
        keys_distinct(pairs@),
    ensures
        match r {
            Some(s) => pairs_map(pairs@).contains_key(key@) && s@ == pairs_map(pairs@)[key@],
            None => !pairs_map(pairs@).contains_key(key@),
        },
{
    let mut i: usize = 0;
    while i < pairs.len()
        invariant
            0 <= i <= pairs@.len(),
            keys_distinct(pairs@),
            forall|j: int| 0 <= j < i ==> (#[trigger] pairs@[j]).0@ != key@,
        decreases pairs@.len() - i,
    {
        if pairs[i].0 == *key {
            let ghost m = pairs_map(pairs@);
            assert(pairs@[i as int].0@ == key@);
            assert(m.contains_key(key@));
            let ghost c = choose|j: int| 0 <= j < pairs@.len() && (#[trigger] pairs@[j]).0@ == key@;
            assert(c == i);
            return Some(pairs[i].1.clone());
        }
        i = i + 1;
    }
    None
}

/// The shader files named by a configuration: the shader's name and, for
/// each stage, a file relative to the configuration's folder.
pub struct ShaderConfig {
    pub name: String,
    pub vertex: Option<String>,
    pub fragment: Option<String>,
    pub compute: Option<String>,
}

/// The keys of a shader configuration.
pub open spec fn key_name() -> Seq<char> {
    seq!['n', 'a', 'm', 'e']
}

pub open spec fn key_vertex() -> Seq<char> {
    seq!['v', 'e', 'r', 't', 'e', 'x']
}

pub open spec fn key_fragment() -> Seq<char> {
    seq!['f', 'r', 'a', 'g', 'm', 'e', 'n', 't']
}

pub open spec fn key_compute() -> Seq<char> {
    seq!['c', 'o', 'm', 'p', 'u', 't', 'e']
}

/// The view of an optional string.
pub open spec fn opt_view(o: Option<String>) -> Option<Seq<char>> {
    match o {
        Some(s) => Some(s@),
        None => None,
    }
}

/// A configuration read from `m`: present when `m` has a name.
pub open spec fn config_matches(c: ShaderConfig, m: Map<Seq<char>, Seq<char>>) -> bool {
    &&& m.contains_key(key_name())
    &&& c.name@ == m[key_name()]
    &&& opt_view(c.vertex) == m.get(key_vertex())
    &&& opt_view(c.fragment) == m.get(key_fragment())
    &&& opt_view(c.compute) == m.get(key_compute())
}

fn lookup_opt(pairs: &Vec<(String, String)>, key: &String) -> (r: Option<String>)
    requires
        keys_distinct(pairs@),
    ensures
        opt_view(r) == pairs_map(pairs@).get(key@),
{
    lookup(pairs, key)
}

/// Reads a shader configuration: a JSON object of strings with the key
/// `"name"` and, optionally, `"vertex"`, `"fragment"` and `"compute"`.
/// `None` when the text is no such object or has no name.
pub fn parse_shader_config(text: &str) -> (r: Option<ShaderConfig>)
    ensures
        match json_string_object(text@) {
            None => r is None,
            Some(m) => match r {
                Some(c) => config_matches(c, m),
                None => !m.contains_key(key_name()),
            },
        },
{
    let pairs = match parse_string_map(text) {
        Some(p) => p,
        None => {
            return None;
        },
    };
    let k_name = "name".to_owned();
    let k_vertex = "vertex".to_owned();
    let k_fragment = "fragment".to_owned();
    let k_compute = "compute".to_owned();
    proof {
        reveal_strlit("name");
        reveal_strlit("vertex");
        reveal_strlit("fragment");
        reveal_strlit("compute");
    }
    assert(k_name@ =~= key_name());
    assert(k_vertex@ =~= key_vertex());
    assert(k_fragment@ =~= key_fragment());
    assert(k_compute@ =~= key_compute());
    let name = match lookup(&pairs, &k_name) {
        Some(n) => n,
        None => {
            return None;
        },
    };
    let vertex = lookup_opt(&pairs, &k_vertex);
    let fragment = lookup_opt(&pairs, &k_fragment);
    let compute = lookup_opt(&pairs, &k_compute);
    Some(ShaderConfig { name, vertex, fragment, compute })
}

/// One shader module to be made: its label, its file (relative to the
/// configuration's folder) and the stage it is made for and stored under.
pub struct ShaderRequest {
    pub label: String,
    pub file: String,
    pub stage: ShaderStage,
}

/// The view of a request: label, file and stage.
pub open spec fn request_view(r: ShaderRequest) -> (Seq<char>, Seq<char>, ShaderStage) {
    (r.label@, r.file@, r.stage)
}

/// The requests a configuration makes, in the order vertex, fragment,
/// compute, for the files it names; each is labelled with the shader's name
/// and a suffix, and every module is made for, and stored under, the vertex
/// stage.
pub open spec fn requests_of(c: ShaderConfig) -> Seq<(Seq<char>, Seq<char>, ShaderStage)> {
    let v = match c.vertex {
        Some(f) => seq![(c.name@ + seq!['.', 'v', 'e', 'r', 't'], f@, ShaderStage::Vertex)],
        None => Seq::empty(),
    };
    let fr = match c.fragment {
        Some(f) => seq![(c.name@ + seq!['.', 'f', 'r', 'a', 'g'], f@, ShaderStage::Vertex)],
        None => Seq::empty(),
    };
    let co = match c.compute {
        Some(f) => seq![(c.name@ + seq!['.', 'c', 'o', 'm', 'p'], f@, ShaderStage::Vertex)],
        None => Seq::empty(),
    };
    v + fr + co
}

/// 1 when a file is named, else 0.
pub open spec fn named(f: Option<String>) -> nat {
    if f is Some { 1 } else { 0 }
}

/// Each file a configuration names gives exactly one request of its own,
/// whatever else the configuration names: the request for the vertex file
/// `f` is labelled with the shader's name and `.vert` and reads `f`, and so
/// on for `.frag` and `.comp`; there are as many requests as named files and
/// no two share a label.  Every module is made for the vertex stage.
pub proof fn lemma_one_request_per_named_file(c: ShaderConfig)
    ensures
        requests_of(c).len() == named(c.vertex) + named(c.fragment) + named(c.compute),
        forall|f: String| c.vertex == Some(f) ==> requests_of(c).contains(
            (c.name@ + seq!['.', 'v', 'e', 'r', 't'], f@, ShaderStage::Vertex),
        ),
        forall|f: String| c.fragment == Some(f) ==> requests_of(c).contains(
            (c.name@ + seq!['.', 'f', 'r', 'a', 'g'], f@, ShaderStage::Vertex),
        ),
        forall|f: String| c.compute == Some(f) ==> requests_of(c).contains(
            (c.name@ + seq!['.', 'c', 'o', 'm', 'p'], f@, ShaderStage::Vertex),
        ),
        forall|i: int, j: int|
            0 <= i < j < requests_of(c).len() ==> (#[trigger] requests_of(c)[i]).0 != (
            #[trigger] requests_of(c)[j]).0,
        forall|i: int| 0 <= i < requests_of(c).len() ==> (#[trigger] requests_of(c)[i]).2 == ShaderStage::Vertex,
{
    let v: Seq<(Seq<char>, Seq<char>, ShaderStage)> = match c.vertex {
        Some(f) => seq![(c.name@ + seq!['.', 'v', 'e', 'r', 't'], f@, ShaderStage::Vertex)],
        None => Seq::empty(),
    };
    let fr: Seq<(Seq<char>, Seq<char>, ShaderStage)> = match c.fragment {
        Some(f) => seq![(c.name@ + seq!['.', 'f', 'r', 'a', 'g'], f@, ShaderStage::Vertex)],
        None => Seq::empty(),
    };
    let co: Seq<(Seq<char>, Seq<char>, ShaderStage)> = match c.compute {
        Some(f) => seq![(c.name@ + seq!['.', 'c', 'o', 'm', 'p'], f@, ShaderStage::Vertex)],
        None => Seq::empty(),
    };
    let r = requests_of(c);
    assert(r =~= v + fr + co);
    let n = c.name@.len();
    if c.vertex is Some {
        assert(r[0] == v[0]);
    }
    if c.fragment is Some {
        assert(r[v.len() as int] == fr[0]);
    }
    if c.compute is Some {
        assert(r[(v.len() + fr.len()) as int] == co[0]);
    }
    assert forall|i: int, j: int| 0 <= i < j < r.len() implies (#[trigger] r[i]).0 != (#[trigger] r[j]).0 by {
        // the labels differ in their last character
        let li = r[i].0;
        let lj = r[j].0;
        assert(li.len() == n + 5 && lj.len() == n + 5);
        if i < v.len() {
            assert(li[n as int + 4] == 't');
        } else if i < v.len() + fr.len() {
            assert(li[n as int + 4] == 'g');
        } else {
            assert(li[n as int + 4] == 'p');
        }
        if j < v.len() {
            assert(lj[n as int + 4] == 't');
        } else if j < v.len() + fr.len() {
            assert(lj[n as int + 4] == 'g');
        } else {
            assert(lj[n as int + 4] == 'p');
        }
    }
}

impl ShaderConfig {
    /// The shader modules this configuration asks for.
    pub fn requests(&self) -> (r: Vec<ShaderRequest>)
        ensures
            r@.map_values(|q: ShaderRequest| request_view(q)) == requests_of(*self),
    {
        let mut r: Vec<ShaderRequest> = Vec::new();
        let vert = ".vert";
        let frag = ".frag";
        let comp = ".comp";
        proof {
            reveal_strlit(".vert");
            reveal_strlit(".frag");
            reveal_strlit(".comp");
        }
        let ghost c = *self;
        let ghost v = match c.vertex {
            Some(f) => seq![(c.name@ + seq!['.', 'v', 'e', 'r', 't'], f@, ShaderStage::Vertex)],
            None => Seq::empty(),
        };
        let ghost fr = match c.fragment {
            Some(f) => seq![(c.name@ + seq!['.', 'f', 'r', 'a', 'g'], f@, ShaderStage::Vertex)],
            None => Seq::empty(),
        };
        let ghost co = match c.compute {
            Some(f) => seq![(c.name@ + seq!['.', 'c', 'o', 'm', 'p'], f@, ShaderStage::Vertex)],
            None => Seq::empty(),
        };
        assert(r@.map_values(|q: ShaderRequest| request_view(q)) =~= Seq::empty());
        if let Some(f) = &self.vertex {
            let label = self.name.clone().concat(vert);
            assert(label@ =~= c.name@ + seq!['.', 'v', 'e', 'r', 't']);
            r.push(ShaderRequest { label, file: f.clone(), stage: ShaderStage::Vertex });
        }
        assert(r@.map_values(|q: ShaderRequest| request_view(q)) =~= v);
        if let Some(f) = &self.fragment {
            let ghost before = r@;
            let label = self.name.clone().concat(frag);
            assert(label@ =~= c.name@ + seq!['.', 'f', 'r', 'a', 'g']);
            r.push(ShaderRequest { label, file: f.clone(), stage: ShaderStage::Vertex });
            assert(r@.map_values(|q: ShaderRequest| request_view(q)) =~= before.map_values(
                |q: ShaderRequest| request_view(q),
            ) + fr);
        }
        assert(r@.map_values(|q: ShaderRequest| request_view(q)) =~= v + fr);
        if let Some(f) = &self.compute {
            let ghost before = r@;
            let label = self.name.clone().concat(comp);
            assert(label@ =~= c.name@ + seq!['.', 'c', 'o', 'm', 'p']);
            r.push(ShaderRequest { label, file: f.clone(), stage: ShaderStage::Vertex });
            assert(r@.map_values(|q: ShaderRequest| request_view(q)) =~= before.map_values(
                |q: ShaderRequest| request_view(q),
            ) + co);
        }
        assert(r@.map_values(|q: ShaderRequest| request_view(q)) =~= v + fr + co);
        r
    }
}

} // verus!
