use recollection::chain::Chain;
use recollection::RecolResult;

#[test]
fn init_ok() -> RecolResult<()> {
    let _chain = Chain::<usize>::new();
    Ok(())
}

#[test]
fn push_ok() -> RecolResult<()> {
    let chain = Chain::<usize>::new();
    assert_eq!(chain.len(), 0);
    Ok(())
}

#[test]
fn iter_ok() -> RecolResult<()> {
    Ok(())
}

#[test]
fn prepend_and_head() {
    let mut chain = Chain::<u32>::new();
    chain.prepend(4);
    chain.prepend(8);
    chain.prepend(9);
    assert_eq!(chain.len(), 3);
    assert_eq!(chain.head(), Some(&9));
}

#[test]
fn tail_shares_cells() {
    let mut chain = Chain::<u32>::new();
    chain.prepend(3);
    chain.prepend(2);
    chain.prepend(1);
    let tail = chain.tail();
    assert_eq!(tail.len(), 2);
    assert_eq!(tail.head(), Some(&2));
    let tail2 = tail.tail();
    assert_eq!(tail2.head(), Some(&3));
    assert_eq!(tail2.tail().len(), 0);
    // the source chain is untouched
    assert_eq!(chain.len(), 3);
    assert_eq!(chain.head(), Some(&1));
}

#[test]
fn iter_walks_front_first() {
    let mut chain = Chain::<u32>::init(30);
    chain.prepend(20);
    chain.prepend(10);
    let mut iter = chain.iter();
    assert_eq!(iter.next(), Some(&10));
    assert_eq!(iter.next(), Some(&20));
    assert_eq!(iter.next(), Some(&30));
    assert_eq!(iter.next(), None);
    assert_eq!(iter.next(), None);
}

#[test]
fn set_head_replaces_chain() {
    let mut a = Chain::<u8>::init(7);
    a.prepend(6);
    let mut b = Chain::<u8>::new();
    let cells = b.head_mut();
    assert!(cells.is_none());
    a.set_head(None);
    assert_eq!(a.len(), 0);
}
