use gc::handle::EscapeScope;
use gc::handle::Local;
use gc::handle::Member;
use gc::handle::Scope;
use gc::Config;
use gc::Gc;
use gc::Trace;
use gc::Tracer;
use std::cell::RefCell;
use std::rc::Rc;

struct Test {
    value: u32,
}

struct Compound {
    data: Member,
}

enum Item {
    Test(Test),
    Compound(Compound),
}

impl Trace for Item {
    fn trace(&self, tracer: &mut Tracer) {
        if let Item::Compound(c) = self {
            c.data.trace(tracer);
        }
    }
}

fn test_value(cx: &Gc<Item>, l: &Local) -> u32 {
    match l.get(cx).unwrap() {
        Item::Test(t) => t.value,
        Item::Compound(_) => panic!("expected a test value"),
    }
}

type Log = Rc<RefCell<Vec<u32>>>;

struct Node {
    prev: RefCell<Option<Member>>,
    next: RefCell<Option<Member>>,
    value: u32,
    log: Log,
}

impl Trace for Node {
    fn trace(&self, tracer: &mut Tracer) {
        self.prev.borrow().trace(tracer);
        self.next.borrow().trace(tracer);
    }
}

impl Drop for Node {
    fn drop(&mut self) {
        self.log.borrow_mut().push(self.value);
    }
}

fn new_node(cx: &mut Gc<Node>, s: &Scope, value: u32, log: &Log) -> Local {
    Local::new(
        cx,
        s,
        Node {
            prev: RefCell::new(None),
            next: RefCell::new(None),
            value,
            log: log.clone(),
        },
    )
}

fn node_join(cx: &Gc<Node>, left: &Local, right: &Local) {
    *left.get(cx).unwrap().next.borrow_mut() = Some(right.to_member(cx));
    *right.get(cx).unwrap().prev.borrow_mut() = Some(left.to_member(cx));
}

fn node_rotate_right(cx: &Gc<Node>, node: &mut Member) -> bool {
    let next = *node.get(cx).unwrap().next.borrow();
    if let Some(next) = next {
        *node = next;
        true
    } else {
        false
    }
}

fn node_rotate_left(cx: &Gc<Node>, node: &mut Member) -> bool {
    let prev = *node.get(cx).unwrap().prev.borrow();
    if let Some(prev) = prev {
        *node = prev;
        true
    } else {
        false
    }
}

#[test]
fn gc_simple() {
    let mut cx: Gc<Item> = Gc::new(Config::default().stress(true));
    let s = Scope::new(&mut cx);
    let v = Local::new(&mut cx, &s, Item::Test(Test { value: 100 }));
    assert_eq!(test_value(&cx, &v), 100);
    s.close(&mut cx);
}

#[test]
fn gc_mark_and_sweep_0() {
    let mut cx: Gc<Item> = Gc::new(Config::default().stress(true));
    let s = Scope::new(&mut cx);
    let a = Local::new(&mut cx, &s, Item::Test(Test { value: 200 }));
    let b = Local::new(&mut cx, &s, Item::Test(Test { value: 300 }));
    assert_eq!(test_value(&cx, &a), 200);
    assert_eq!(test_value(&cx, &b), 300);
    let c = Local::new(&mut cx, &s, Item::Test(Test { value: 400 }));
    assert_eq!(test_value(&cx, &c), 400);
    s.close(&mut cx);
    cx.collect();
}

#[test]
fn gc_mark_and_sweep_1() {
    let mut cx: Gc<Item> = Gc::new(Config::default().stress(false));
    let s = Scope::new(&mut cx);
    let a = Local::new(&mut cx, &s, Item::Test(Test { value: 100 }));
    {
        let s = Scope::new(&mut cx);
        Local::new(&mut cx, &s, Item::Test(Test { value: 200 }));
        s.close(&mut cx);
    }
    let c = Local::new(&mut cx, &s, Item::Test(Test { value: 300 }));
    {
        let s = Scope::new(&mut cx);
        let _d = Local::new(&mut cx, &s, Item::Test(Test { value: 400 }));
        s.close(&mut cx);
    }
    {
        let s = Scope::new(&mut cx);
        let _e = Local::new(&mut cx, &s, Item::Test(Test { value: 500 }));
        s.close(&mut cx);
    }
    let f = Local::new(&mut cx, &s, Item::Test(Test { value: 600 }));
    assert_eq!(test_value(&cx, &a) + test_value(&cx, &c) + test_value(&cx, &f), 1000);
    // run the collector while A, C, F are live
    s.collect(&mut cx);
    assert_eq!(test_value(&cx, &a) + test_value(&cx, &c) + test_value(&cx, &f), 1000);
    s.close(&mut cx);
}

#[test]
fn gc_mark_and_sweep_2() {
    let mut cx: Gc<Item> = Gc::new(Config::default().stress(false));
    let s = Scope::new(&mut cx);
    let data = Local::new(&mut cx, &s, Item::Test(Test { value: 100 })).to_member(&cx);
    let v = Local::new(&mut cx, &s, Item::Compound(Compound { data }));
    let member = match v.get(&cx).unwrap() {
        Item::Compound(c) => c.data,
        Item::Test(_) => panic!("expected a compound"),
    };
    let data = member.in_scope(&mut cx, &s);
    assert_eq!(test_value(&cx, &data), 100);
    s.close(&mut cx);
}

#[test]
fn gc_escape_value() {
    let log: Log = Rc::new(RefCell::new(Vec::new()));
    let mut cx: Gc<Node> = Gc::new(Config::default().stress(true));
    let s = Scope::new(&mut cx);
    let escaped = {
        let mut es = EscapeScope::new(&mut cx);
        let v = new_node(&mut cx, es.scope(), 100, &log);
        let r = es.escape(&mut cx, &v);
        es.close(&mut cx);
        r
    };
    s.collect(&mut cx);
    assert_eq!(escaped.get(&cx).unwrap().value, 100);
    s.close(&mut cx);
}

#[test]
fn gc_doubly_linked_list() {
    let log: Log = Rc::new(RefCell::new(Vec::new()));
    let mut cx: Gc<Node> = Gc::new(Config::default().stress(true));
    let s = Scope::new(&mut cx);
    // 1 <-> 2 <-> 3 <-> 4
    let root = {
        let mut es = EscapeScope::new(&mut cx);
        let one = new_node(&mut cx, es.scope(), 1, &log);
        let two = new_node(&mut cx, es.scope(), 2, &log);
        let three = new_node(&mut cx, es.scope(), 3, &log);
        let four = new_node(&mut cx, es.scope(), 4, &log);
        node_join(&cx, &one, &two);
        node_join(&cx, &two, &three);
        node_join(&cx, &three, &four);
        let r = es.escape(&mut cx, &one);
        es.close(&mut cx);
        r
    };

    // traverse the list in both directions
    {
        let inner = Scope::new(&mut cx);
        let mut node = root.in_scope(&mut cx, &inner).to_member(&cx);
        for i in 1..=4 {
            assert_eq!(node.get(&cx).unwrap().value, i);
            node_rotate_right(&cx, &mut node);
        }
        for i in (1..=4).rev() {
            assert_eq!(node.get(&cx).unwrap().value, i);
            node_rotate_left(&cx, &mut node);
        }
        inner.close(&mut cx);
    }

    // make the list circular, and drop the reference to `4`
    {
        let inner = Scope::new(&mut cx);
        let one = root.in_scope(&mut cx, &inner);
        let two_m = one.get(&cx).unwrap().next.borrow().unwrap();
        let two = two_m.in_scope(&mut cx, &inner);
        let three_m = two.get(&cx).unwrap().next.borrow().unwrap();
        let three = three_m.in_scope(&mut cx, &inner);
        node_join(&cx, &three, &one);
        inner.close(&mut cx);
    }

    // `4` is now unreachable and goes in this collection
    s.collect(&mut cx);
    assert_eq!(*log.borrow(), vec![4]);

    // rotating through the circular list yields the same values again
    {
        let inner = Scope::new(&mut cx);
        let mut node = root.in_scope(&mut cx, &inner).to_member(&cx);
        for _ in 0..2 {
            for i in 1..=3 {
                assert_eq!(node.get(&cx).unwrap().value, i);
                assert!(node_rotate_right(&cx, &mut node));
            }
        }
        inner.close(&mut cx);
    }
    s.close(&mut cx);
}
