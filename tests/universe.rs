use nodegraph::class::{Class, ClassAs, ClassDynComponent};
use nodegraph::handle_map::Handle;
use nodegraph::universe::{handles, with_class, with_component, Universe};

#[derive(Debug, PartialEq)]
struct Name(String);
#[derive(Debug, PartialEq)]
struct Age(u32);

#[derive(Debug, PartialEq)]
struct Cat {
    name: Name,
    age: Age,
}

#[derive(Debug, PartialEq)]
struct Dog {
    name: Name,
    age: Age,
}

#[derive(Debug, PartialEq)]
enum Animal {
    Cat(Cat),
    Dog(Dog),
}

impl Class for Animal {
    fn name(&self) -> &'static str {
        match self {
            Animal::Cat(_) => "Cat",
            Animal::Dog(_) => "Dog",
        }
    }
}

impl ClassDynComponent<Name> for Animal {
    fn component(&self) -> Option<&Name> {
        match self {
            Animal::Cat(c) => Some(&c.name),
            Animal::Dog(d) => Some(&d.name),
        }
    }

    fn component_mut(&mut self) -> Option<&mut Name> {
        match self {
            Animal::Cat(c) => Some(&mut c.name),
            Animal::Dog(d) => Some(&mut d.name),
        }
    }
}

impl ClassDynComponent<Age> for Animal {
    fn component(&self) -> Option<&Age> {
        match self {
            Animal::Cat(c) => Some(&c.age),
            Animal::Dog(d) => Some(&d.age),
        }
    }

    fn component_mut(&mut self) -> Option<&mut Age> {
        match self {
            Animal::Cat(c) => Some(&mut c.age),
            Animal::Dog(d) => Some(&mut d.age),
        }
    }
}

impl ClassDynComponent<u8> for Animal {
    fn component(&self) -> Option<&u8> {
        None
    }

    fn component_mut(&mut self) -> Option<&mut u8> {
        None
    }
}

impl ClassAs<Cat> for Animal {
    fn class_as(&self) -> Option<&Cat> {
        match self {
            Animal::Cat(c) => Some(c),
            _ => None,
        }
    }

    fn class_as_mut(&mut self) -> Option<&mut Cat> {
        match self {
            Animal::Cat(c) => Some(c),
            _ => None,
        }
    }
}

impl ClassAs<Dog> for Animal {
    fn class_as(&self) -> Option<&Dog> {
        match self {
            Animal::Dog(d) => Some(d),
            _ => None,
        }
    }

    fn class_as_mut(&mut self) -> Option<&mut Dog> {
        match self {
            Animal::Dog(d) => Some(d),
            _ => None,
        }
    }
}

fn all_handles(universe: &Universe<Animal>) -> Vec<Handle> {
    handles(&universe.nodes().collect())
}

#[test]
fn node_lookup() {
    // Create a universe
    let mut universe = Universe::new();

    // Create node 1
    let node_handle1 = universe.create_node(None, ());

    // Create node 2 as a child node for node 1
    let node_handle2 = universe.create_node(Some(&node_handle1), ());

    // Create 2 children nodes for node 2
    let node_handle3 = universe.create_node(Some(&node_handle2), ());
    let node_handle4 = universe.create_node(Some(&node_handle2), ());

    // Assert that node 2 has node 1 as its parent
    assert_eq!(
        universe.node(&node_handle2).unwrap().parent(),
        Some(&node_handle1)
    );

    // Assert that node 1 has node 2 as its only child
    assert_eq!(
        universe.node(&node_handle1).unwrap().children(),
        &[node_handle2.clone()]
    );

    // Assert that node 2 has node 3 and node 4 as its only children
    assert_eq!(
        universe.node(&node_handle2).unwrap().children(),
        &[node_handle3.clone(), node_handle4]
    );

    // Change node 2's parent to node 3
    universe.change_parent(&node_handle2, Some(&node_handle3));

    // Assert that node 2 has node 3 as its parent
    assert_eq!(
        universe.node(&node_handle2).unwrap().parent(),
        Some(&node_handle3)
    );

    // Assert that node 3 has node 2 as its only child
    assert_eq!(
        universe.node(&node_handle3).unwrap().children(),
        &[node_handle2]
    );

    // Assert that node 1 has no children
    assert_eq!(universe.node(&node_handle1).unwrap().children(), &[]);
}

#[test]
fn node_component_lookup() {
    // Create a universe
    let mut universe = Universe::new();

    // Create a cat node
    let cat_node_handle = universe.create_node(
        None,
        Animal::Cat(Cat {
            name: Name("Garfield".to_string()),
            age: Age(5),
        }),
    );

    // Create two dog nodes
    let dog_node_handle1 = universe.create_node(
        None,
        Animal::Dog(Dog {
            name: Name("Odie".to_string()),
            age: Age(3),
        }),
    );

    let dog_node_handle2 = universe.create_node(
        None,
        Animal::Dog(Dog {
            name: Name("Boomer".to_string()),
            age: Age(5),
        }),
    );

    // Assert that the cat node has a Name component
    assert_eq!(
        universe.node(&cat_node_handle).unwrap().component::<Name>(),
        Some(&Name("Garfield".to_string()))
    );

    // Assert that the cat node has an Age component
    assert_eq!(
        universe.node(&cat_node_handle).unwrap().component::<Age>(),
        Some(&Age(5))
    );

    // Search the universe for nodes with a Name component
    let named: Vec<_> = with_component::<Name, _>(universe.nodes().collect())
        .into_iter()
        .map(|(node, _name)| node)
        .collect();
    assert_eq!(
        handles(&named),
        vec![cat_node_handle, dog_node_handle1, dog_node_handle2]
    );

    // Search the universe for nodes with a name of "Odie"
    let odie: Vec<_> = with_component::<Name, _>(universe.nodes().collect())
        .into_iter()
        .filter_map(|(node, name)| if &name.0 == "Odie" { Some(node) } else { None })
        .collect();
    assert_eq!(handles(&odie), vec![dog_node_handle1]);

    // Search the universe for dog nodes
    assert_eq!(
        handles(&with_class::<Dog, _>(universe.nodes().collect())),
        vec![dog_node_handle1, dog_node_handle2]
    );

    // Search the universe for dog nodes with an age of 5
    let old_dogs: Vec<_> = with_class::<Dog, _>(universe.nodes().collect())
        .into_iter()
        .filter(|node| node.component::<Age>() == Some(&Age(5)))
        .collect();
    assert_eq!(handles(&old_dogs), vec![dog_node_handle2]);
}

#[test]
fn reparent_moves_node_between_parents() {
    let mut universe = Universe::new();
    let a = universe.create_node(None, ());
    let b = universe.create_node(Some(&a), ());
    let c = universe.create_node(Some(&b), ());
    let d = universe.create_node(Some(&b), ());
    assert_eq!(universe.change_parent(&b, Some(&c)), Some(a));
    assert_eq!(universe.node(&c).unwrap().children(), &[b]);
    assert_eq!(universe.node(&b).unwrap().parent(), Some(&c));
    assert_eq!(universe.node(&a).unwrap().children(), &[]);
    assert_eq!(universe.node(&b).unwrap().children(), &[c, d]);
    assert_eq!(universe.root_node_handles(), &[a]);
}

#[test]
fn reparent_to_none_makes_a_root() {
    let mut universe = Universe::new();
    let a = universe.create_node(None, ());
    let b = universe.create_node(Some(&a), ());
    assert_eq!(universe.root_node_handles(), &[a]);
    assert_eq!(universe.change_parent(&b, None), Some(a));
    assert_eq!(universe.node(&b).unwrap().parent(), None);
    assert_eq!(universe.root_node_handles(), &[a, b]);
    assert_eq!(universe.node(&a).unwrap().children(), &[]);
    // and back under a: it leaves the roots
    assert_eq!(universe.change_parent(&b, Some(&a)), None);
    assert_eq!(universe.root_node_handles(), &[a]);
    assert_eq!(universe.node(&a).unwrap().children(), &[b]);
}

#[test]
fn reparent_keeps_sibling_order() {
    let mut universe = Universe::new();
    let p = universe.create_node(None, ());
    let q = universe.create_node(None, ());
    let x = universe.create_node(Some(&p), ());
    let y = universe.create_node(Some(&p), ());
    let z = universe.create_node(Some(&p), ());
    universe.change_parent(&y, Some(&q));
    assert_eq!(universe.node(&p).unwrap().children(), &[x, z]);
    assert_eq!(universe.node(&q).unwrap().children(), &[y]);
}

#[test]
fn tree_invariant_holds_after_edits() {
    let mut universe = Universe::new();
    let a = universe.create_node(None, ());
    let b = universe.create_node(Some(&a), ());
    let c = universe.create_node(Some(&b), ());
    let d = universe.create_node(None, ());
    universe.change_parent(&c, Some(&d));
    universe.change_parent(&b, None);
    universe.change_parent(&d, Some(&a));
    let all = handles(&universe.nodes().collect());
    assert_eq!(all, vec![a, b, c, d]);
    for h in &all {
        let node = universe.node(h).unwrap();
        assert_eq!(node.handle(), h);
        match node.parent() {
            None => assert!(universe.root_node_handles().contains(h)),
            Some(p) => {
                assert!(!universe.root_node_handles().contains(h));
                assert!(universe.node(p).unwrap().children().contains(h));
            }
        }
    }
}

#[test]
fn node_handle_and_containment() {
    let mut universe = Universe::new();
    let a = universe.create_node(None, ());
    assert_eq!(universe.node(&a).unwrap().handle(), &a);
    assert!(universe.contains_node(&a));
    let other: Universe<()> = Universe::new();
    assert!(!other.contains_node(&a));
    assert!(other.node(&a).is_none());
}

#[test]
fn with_class_yields_dogs_in_creation_order() {
    let mut universe = Universe::new();
    let d1 = universe.create_node(
        None,
        Animal::Dog(Dog { name: Name("Rex".to_string()), age: Age(1) }),
    );
    let c1 = universe.create_node(
        None,
        Animal::Cat(Cat { name: Name("Tom".to_string()), age: Age(2) }),
    );
    let d2 = universe.create_node(
        Some(&c1),
        Animal::Dog(Dog { name: Name("Fido".to_string()), age: Age(3) }),
    );
    assert_eq!(handles(&with_class::<Dog, _>(universe.nodes().collect())), vec![d1, d2]);
    assert_eq!(handles(&with_class::<Cat, _>(universe.nodes().collect())), vec![c1]);
    assert_eq!(all_handles(&universe), vec![d1, c1, d2]);
    let cat = universe.node(&c1).unwrap();
    assert_eq!(cat.component::<Name>(), Some(&Name("Tom".to_string())));
    assert_eq!(cat.class().name(), "Cat");
}

#[test]
fn component_query_keeps_order_and_skips_missing() {
    let mut universe = Universe::new();
    let a = universe.create_node(
        None,
        Animal::Cat(Cat { name: Name("A".to_string()), age: Age(1) }),
    );
    let b = universe.create_node(
        None,
        Animal::Dog(Dog { name: Name("B".to_string()), age: Age(2) }),
    );
    let named: Vec<_> = with_component::<Name, _>(universe.nodes().collect());
    let names: Vec<&str> = named.iter().map(|(_, n)| n.0.as_str()).collect();
    assert_eq!(names, vec!["A", "B"]);
    let nodes: Vec<_> = named.into_iter().map(|(n, _)| n).collect();
    assert_eq!(handles(&nodes), vec![a, b]);
    // no class has a u8 component
    assert!(with_component::<u8, _>(universe.nodes().collect()).is_empty());
}

#[test]
fn class_as_agrees_with_class_is() {
    let mut universe = Universe::new();
    let c = universe.create_node(
        None,
        Animal::Cat(Cat { name: Name("C".to_string()), age: Age(4) }),
    );
    let node = universe.node(&c).unwrap();
    assert!(node.class_is::<Cat>());
    assert!(node.class_as::<Cat>().is_some());
    assert!(!node.class_is::<Dog>());
    assert!(node.class_as::<Dog>().is_none());
    assert_eq!(node.class_as::<Cat>().unwrap().age, Age(4));
    let node = universe.node_mut(&c).unwrap();
    node.class_as_mut::<Cat>().unwrap().age = Age(5);
    assert!(node.class_as_mut::<Dog>().is_none());
    assert_eq!(universe.node(&c).unwrap().component::<Age>(), Some(&Age(5)));
}

#[test]
fn component_mut_writes_through() {
    let mut universe = Universe::new();
    let d = universe.create_node(
        None,
        Animal::Dog(Dog { name: Name("Odie".to_string()), age: Age(3) }),
    );
    *universe.node_mut(&d).unwrap().component_mut::<Age>().unwrap() = Age(4);
    assert_eq!(universe.node(&d).unwrap().component::<Age>(), Some(&Age(4)));
    assert!(universe.node_mut(&d).unwrap().component_mut::<u8>().is_none());
}

#[test]
fn unit_class_has_no_components() {
    let mut universe = Universe::new();
    let h = universe.create_node(None, ());
    let node = universe.node(&h).unwrap();
    assert_eq!(node.class().name(), "()");
    assert_eq!(node.component::<u32>(), None);
    assert!(node.class_is::<()>());
}

#[test]
fn batch_calls_follow_handle_order() {
    let mut universe = Universe::new();
    let a = universe.create_node(None, ());
    let b = universe.create_node(Some(&a), ());
    let c = universe.create_node(None, ());
    let other = Universe::<()>::new();
    let mut foreign = Universe::new();
    let f = foreign.create_node(None, ());
    drop(other);
    let found = universe.nodes_with_handles(&[c, f, a]);
    assert_eq!(found.len(), 3);
    assert_eq!(found[0].unwrap().handle(), &c);
    assert!(found[1].is_none());
    assert_eq!(found[2].unwrap().handle(), &a);
    let kids = universe.using_nodes_with_handles(&[a, b], |n| n.map(|n| n.children().len()));
    assert_eq!(kids, vec![Some(1), Some(0)]);
    let roots = universe.using_root_nodes(|n| n.map(|n| *n.handle()));
    assert_eq!(roots, vec![Some(a), Some(c)]);
    let counts = universe.using_nodes_with_handles_mut(&[b], |n| n.map(|n| n.children().len()));
    assert_eq!(counts, vec![Some(0)]);
    let roots_mut = universe.using_root_nodes_mut(|n| n.is_some());
    assert_eq!(roots_mut, vec![true, true]);
}

#[test]
fn nodes_compare_by_handle() {
    let mut universe = Universe::new();
    let a = universe.create_node(None, ());
    let b = universe.create_node(None, ());
    assert!(universe.node(&a).unwrap() == universe.node(&a).unwrap());
    assert!(universe.node(&a).unwrap() != universe.node(&b).unwrap());
}

#[test]
fn mutable_batch_passes_each_handles_node() {
    let mut universe = Universe::new();
    let a = universe.create_node(None, ());
    let b = universe.create_node(Some(&a), ());
    let mut other = Universe::new();
    let stale = other.create_node(None, ());
    let seen = universe.using_nodes_with_handles_mut(&[b, stale, a], |n| n.map(|n| *n.handle()));
    assert_eq!(seen, vec![Some(b), None, Some(a)]);
    let roots = universe.using_root_nodes_mut(|n| n.map(|n| n.children().len()));
    assert_eq!(roots, vec![Some(1)]);
}
