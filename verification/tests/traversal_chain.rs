use pluto_layers::system::LayerSystemManager;
use pluto_layers::traversal::{LayerTraversal, TraversalStep};
use pluto_layers::traversal_chain::{TraversalChain, TraversalChainNode};

fn walked(chain: &TraversalChain) -> Vec<u64> {
    let mut ids = Vec::new();
    let mut walker = chain.iter();
    while let Some(id) = walker.next() {
        ids.push(id);
    }
    assert_eq!(walker.next(), None);
    ids
}

fn walked_back(chain: &TraversalChain) -> Vec<u64> {
    let mut ids = Vec::new();
    let mut walker = chain.iter_back();
    while let Some(id) = walker.next() {
        ids.push(id);
    }
    assert_eq!(walker.next(), None);
    ids
}

fn check_both_directions(chain: &TraversalChain, expected: &[u64]) {
    assert_eq!(chain.ids(), expected);
    assert_eq!(walked(chain), expected);
    let mut reversed = expected.to_vec();
    reversed.reverse();
    assert_eq!(chain.ids_back(), reversed);
    assert_eq!(walked_back(chain), reversed);
    assert_eq!(chain.fwd_len(), expected.len() + 1);
    assert_eq!(chain.bwd_len(), expected.len() + 1);
    assert_eq!(chain.is_empty(), expected.is_empty());
}

#[test]
fn empty_chain_links_start_to_end() {
    let chain = TraversalChain::new();
    check_both_directions(&chain, &[]);
    assert_eq!(
        chain.get_next(&TraversalChainNode::Start),
        TraversalChainNode::End
    );
    assert_eq!(
        chain.get_prev(&TraversalChainNode::End),
        TraversalChainNode::Start
    );
    assert!(!chain.contains(0));
}

#[test]
fn insert_last_appends() {
    let mut chain = TraversalChain::new();
    chain.insert_last(4);
    chain.insert_last(2);
    chain.insert_last(9);
    check_both_directions(&chain, &[4, 2, 9]);
}

#[test]
fn insert_first_prepends() {
    let mut chain = TraversalChain::new();
    chain.insert_first(4);
    chain.insert_first(2);
    chain.insert_first(9);
    check_both_directions(&chain, &[9, 2, 4]);
}

#[test]
fn insert_before_and_after_an_anchor() {
    let mut chain = TraversalChain::new();
    chain.insert_last(1);
    chain.insert_last(2);
    chain.insert_after(3, 1);
    check_both_directions(&chain, &[1, 3, 2]);
    chain.insert_before(4, 1);
    check_both_directions(&chain, &[4, 1, 3, 2]);
    chain.insert_after(5, 2);
    check_both_directions(&chain, &[4, 1, 3, 2, 5]);
    chain.insert_before(6, 5);
    check_both_directions(&chain, &[4, 1, 3, 2, 6, 5]);
}

#[test]
fn remove_joins_the_neighbours() {
    let mut chain = TraversalChain::new();
    for id in [10, 20, 30, 40] {
        chain.insert_last(id);
    }
    chain.remove(20);
    check_both_directions(&chain, &[10, 30, 40]);
    assert!(!chain.contains(20));
    assert!(chain.contains(30));
    chain.remove(10);
    check_both_directions(&chain, &[30, 40]);
    chain.remove(40);
    check_both_directions(&chain, &[30]);
    chain.remove(30);
    check_both_directions(&chain, &[]);
}

#[test]
fn removed_identifier_can_be_linked_again() {
    let mut chain = TraversalChain::new();
    chain.insert_last(1);
    chain.insert_last(2);
    chain.remove(1);
    chain.insert_last(1);
    check_both_directions(&chain, &[2, 1]);
}

#[test]
fn neighbours_are_each_others_successor_and_predecessor() {
    let mut chain = TraversalChain::new();
    for id in [7, 8, 9] {
        chain.insert_last(id);
    }
    assert_eq!(
        chain.get_next(&TraversalChainNode::Start),
        TraversalChainNode::Link(7)
    );
    assert_eq!(
        chain.get_next(&TraversalChainNode::Link(7)),
        TraversalChainNode::Link(8)
    );
    assert_eq!(
        chain.get_next(&TraversalChainNode::Link(9)),
        TraversalChainNode::End
    );
    assert_eq!(
        chain.get_prev(&TraversalChainNode::End),
        TraversalChainNode::Link(9)
    );
    assert_eq!(
        chain.get_prev(&TraversalChainNode::Link(8)),
        TraversalChainNode::Link(7)
    );
    assert_eq!(
        chain.get_prev(&TraversalChainNode::Link(7)),
        TraversalChainNode::Start
    );
}

#[test]
fn largest_identifier_can_be_linked() {
    let mut chain = TraversalChain::new();
    chain.insert_last(u64::MAX);
    chain.insert_first(0);
    chain.insert_after(u64::MAX - 1, 0);
    check_both_directions(&chain, &[0, u64::MAX - 1, u64::MAX]);
    chain.remove(u64::MAX);
    check_both_directions(&chain, &[0, u64::MAX - 1]);
}

#[test]
fn forward_is_the_reverse_of_backward_after_many_changes() {
    let mut chain = TraversalChain::new();
    let mut expected: Vec<u64> = Vec::new();
    for round in 0..40u64 {
        match round % 5 {
            0 => {
                chain.insert_last(round);
                expected.push(round);
            }
            1 => {
                chain.insert_first(round);
                expected.insert(0, round);
            }
            2 => {
                let anchor = expected[expected.len() / 2];
                chain.insert_after(round, anchor);
                let at = expected.iter().position(|id| *id == anchor).unwrap();
                expected.insert(at + 1, round);
            }
            3 => {
                let anchor = expected[expected.len() / 3];
                chain.insert_before(round, anchor);
                let at = expected.iter().position(|id| *id == anchor).unwrap();
                expected.insert(at, round);
            }
            _ => {
                let gone = expected.remove(expected.len() / 2);
                chain.remove(gone);
            }
        }
        check_both_directions(&chain, &expected);
    }
}

#[test]
fn traversal_enters_all_layers_and_leaves_them_in_reverse() {
    let mut traversal: LayerTraversal<u8> = LayerTraversal::new(vec![5, 6, 7]);
    assert_eq!(traversal.layers_above(), 3);
    assert_eq!(traversal.advance(false), TraversalStep::Enter(5));
    assert_eq!(traversal.layers_above(), 2);
    traversal.systems_mut().provide_system(1, 1);
    traversal.systems_mut().provide_system(2, 2);
    assert_eq!(traversal.advance(true), TraversalStep::Enter(6));
    assert_eq!(traversal.advance(true), TraversalStep::Enter(7));
    assert_eq!(traversal.layers_above(), 0);
    traversal.systems_mut().provide_system(3, 3);
    traversal.systems_mut().provide_system(4, 4);
    traversal.systems_mut().provide_system(5, 5);
    assert_eq!(traversal.advance(true), TraversalStep::Leave(7, 2));
    assert_eq!(traversal.systems().depth(), 5);
    assert_eq!(traversal.advance(true), TraversalStep::Leave(6, 2));
    assert_eq!(traversal.systems().depth(), 2);
    assert_eq!(traversal.advance(true), TraversalStep::Leave(5, 0));
    assert_eq!(traversal.systems().depth(), 2);
    assert_eq!(traversal.advance(true), TraversalStep::Done);
    assert_eq!(traversal.systems().depth(), 0);
    assert_eq!(traversal.advance(true), TraversalStep::Done);
}

#[test]
fn traversal_turns_back_where_a_layer_does_not_proceed() {
    let mut traversal: LayerTraversal<u8> = LayerTraversal::new(vec![5, 6, 7]);
    assert_eq!(traversal.advance(true), TraversalStep::Enter(5));
    traversal.systems_mut().provide_system(1, 1);
    assert_eq!(traversal.advance(true), TraversalStep::Enter(6));
    traversal.systems_mut().provide_system(2, 2);
    assert_eq!(traversal.advance(false), TraversalStep::Leave(6, 1));
    // Once turned back, the traversal does not enter again.
    assert_eq!(traversal.advance(true), TraversalStep::Leave(5, 0));
    assert_eq!(traversal.systems().depth(), 1);
    assert_eq!(traversal.advance(true), TraversalStep::Done);
    assert_eq!(traversal.systems().depth(), 0);
}

#[test]
fn traversal_of_no_layer_is_done_at_once() {
    let mut traversal: LayerTraversal<u8> = LayerTraversal::new(Vec::new());
    assert_eq!(traversal.advance(false), TraversalStep::Done);
    assert_eq!(traversal.advance(true), TraversalStep::Done);
}
