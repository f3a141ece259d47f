//! Graph nodes and the source locations they carry.
use vstd::prelude::*;
use vstd::string::*;

verus! {

/// What a location is: a file name and a 1-based line.
pub ghost struct LocationView {
    pub file: Seq<char>,
    pub row: nat,
}

/// What a node is: its canonical name, whether it names a type alias, and its
/// locations in registration order.
pub ghost struct NodeView {
    pub name: Seq<char>,
    pub alias: bool,
    pub locations: Seq<LocationView>,
}

/// The location that separates the location groups of a merged node.
pub open spec fn separator() -> LocationView {
    LocationView { file: Seq::empty(), row: 0 }
}

/// The character that joins the names of a merged node.
pub open spec fn merge_mark() -> char {
    '#'
}

/// `a` after `b` has been merged into it: a node that keeps its name only
/// gains `b`'s locations; otherwise the names are joined by the merge mark and a
/// separator location stands between the two location groups.
pub open spec fn merged(a: NodeView, b: NodeView) -> NodeView {
    if a.name == b.name {
        NodeView { locations: a.locations + b.locations, ..a }
    } else {
        NodeView {
            name: a.name + seq![merge_mark()] + b.name,
            locations: a.locations + seq![separator()] + b.locations,
            ..a
        }
    }
}

/// The views of a sequence of locations.
pub open spec fn views(s: Seq<Location>) -> Seq<LocationView> {
    s.map_values(|l: Location| l@)
}

/// A position in a source file. An empty file name is never a real position:
/// it marks the boundary between the location groups of a merged node.
pub struct Location {
    pub file: String,
    pub row: usize,
}

impl View for Location {
    type V = LocationView;

    open spec fn view(&self) -> LocationView {
        LocationView { file: self.file@, row: self.row as nat }
    }
}

impl Clone for Location {
    fn clone(&self) -> (r: Self)
        ensures
            r@ == self@,
    {
        Location { file: self.file.clone(), row: self.row }
    }
}

impl Location {
    pub fn new(file: String, row: usize) -> (r: Location)
        ensures
            r@ == (LocationView { file: file@, row: row as nat }),
    {
        Location { file, row }
    }

    pub fn new_empty() -> (r: Location)
        ensures
            r@ == separator(),
    {
        Location { file: String::new(), row: 0 }
    }

    pub fn is_empty(&self) -> (r: bool)
        ensures
            r == (self@.file.len() == 0),
    {
        self.file.as_str().is_empty()
    }
}

/// A graph node: a function, a class or a type alias, identified by its
/// canonical name.
pub struct Node {
    pub name: String,
    pub alias: bool,
    pub location: Vec<Location>,
}

impl View for Node {
    type V = NodeView;

    open spec fn view(&self) -> NodeView {
        NodeView {
            name: self.name@,
            alias: self.alias,
            locations: views(self.location@),
        }
    }
}

/// Copies of `v`'s locations.
fn clone_locations(v: &Vec<Location>) -> (r: Vec<Location>)
    ensures
        views(r@) == views(v@),
{
    let mut r: Vec<Location> = Vec::new();
    for i in 0..v.len()
        invariant
            views(r@) == views(v@.subrange(0, i as int)),
    {
        let c = v[i].clone();
        proof {
            assert(views(r@.push(c)) =~= views(r@).push(c@));
            assert(views(v@.subrange(0, i + 1)) =~= views(v@.subrange(0, i as int)).push(
                v@[i as int]@,
            ));
        }
        r.push(c);
    }
    proof {
        assert(v@.subrange(0, v@.len() as int) == v@);
    }
    r
}

impl Clone for Node {
    fn clone(&self) -> (r: Self)
        ensures
            r@ == self@,
    {
        Node { name: self.name.clone(), alias: self.alias, location: clone_locations(&self.location) }
    }
}

impl Node {
    pub fn new(name: &str, file: &str, row: usize) -> (r: Self)
        ensures
            r@ == (NodeView {
                name: name@,
                alias: false,
                locations: seq![LocationView { file: file@, row: row as nat }],
            }),
    {
        let location = vec![Location::new(String::from_str(file), row)];
        let r = Node { name: String::from_str(name), alias: false, location };
        proof {
            assert(r@.locations =~= seq![LocationView { file: file@, row: row as nat }]);
        }
        r
    }

    pub fn new_alias(name: &str, file: &str, row: usize) -> (r: Self)
        ensures
            r@ == (NodeView {
                name: name@,
                alias: true,
                locations: seq![LocationView { file: file@, row: row as nat }],
            }),
    {
        let location = vec![Location::new(String::from_str(file), row)];
        let r = Node { name: String::from_str(name), alias: true, location };
        proof {
            assert(r@.locations =~= seq![LocationView { file: file@, row: row as nat }]);
        }
        r
    }

    /// A node with no location: an entity whose definition was not found.
    pub fn new_without_loc(name: &str) -> (r: Self)
        ensures
            r@ == (NodeView { name: name@, alias: false, locations: Seq::empty() }),
    {
        let r = Node { name: String::from_str(name), alias: false, location: Vec::new() };
        proof {
            assert(r@.locations =~= Seq::<LocationView>::empty());
        }
        r
    }

    /// Merges `node` into `self`. When the names differ, `self` becomes a
    /// merged node that stands for both.
    pub fn merge_node(&mut self, node: &Node)
        ensures
            final(self)@ == merged(old(self)@, node@),
    {
        if self.name != node.name {
            self.name.append("#");
            self.name.append(node.name.as_str());
            let sep = Location::new_empty();
            proof {
                assert(views(self.location@.push(sep)) =~= views(self.location@).push(sep@));
            }
            self.location.push(sep);
            proof {
                reveal_strlit("#");
            }
        }
        let ghost before = self@;
        for i in 0..node.location.len()
            invariant
                self@ == (NodeView {
                    locations: before.locations + node@.locations.subrange(0, i as int),
                    ..before
                }),
        {
            let c = node.location[i].clone();
            proof {
                assert(views(self.location@.push(c)) =~= views(self.location@).push(c@));
            }
            self.location.push(c);
            proof {
                assert(node@.locations.subrange(0, i + 1) =~= node@.locations.subrange(
                    0,
                    i as int,
                ).push(node.location@[i as int]@));
                assert(self@.locations =~= before.locations + node@.locations.subrange(
                    0,
                    i + 1,
                ));
            }
        }
        proof {
            assert(node@.locations.subrange(0, node@.locations.len() as int)
                =~= node@.locations);
            assert(self@.locations =~= merged(old(self)@, node@).locations);
            assert(self@.name =~= merged(old(self)@, node@).name);
        }
    }

    /// Whether this node stands for several merged names.
    pub fn is_undefined(&self) -> (r: bool)
        ensures
            r == self@.name.contains(merge_mark()),
    {
        let cs = crate::text::chars_of(self.name.as_str());
        let mut i: usize = 0;
        while i < cs.len()
            invariant
                0 <= i <= cs.len(),
                cs@ == self@.name,
                forall|k: int| 0 <= k < i ==> cs@[k] != merge_mark(),
            decreases cs.len() - i,
        {
            if cs[i] == '#' {
                return true;
            }
            i = i + 1;
        }
        false
    }
}

} // verus!
