use gc::handle::EscapeScope;
use gc::handle::Local;
use gc::handle::Member;
use gc::handle::Scope;
use gc::handle::BLOCK_SIZE;
use gc::Config;
use gc::Gc;
use gc::Trace;
use gc::Tracer;
use std::cell::RefCell;
use std::rc::Rc;

struct Test {
    value: u32,
}

impl Trace for Test {
    fn trace(&self, _tracer: &mut Tracer) {}
}

struct Compound {
    data: Member,
}

enum Object {
    Test(Test),
    Compound(Compound),
}

impl Trace for Object {
    fn trace(&self, tracer: &mut Tracer) {
        match self {
            Object::Test(_) => {}
            Object::Compound(c) => c.data.trace(tracer),
        }
    }
}

type Log = Rc<RefCell<Vec<u32>>>;

struct Node {
    prev: RefCell<Option<Member>>,
    next: RefCell<Option<Member>>,
    value: u32,
    log: Log,
}

impl Trace for Node {
    fn trace(&self, tracer: &mut Tracer) {
        self.prev.borrow().trace(tracer);
        self.next.borrow().trace(tracer);
    }
}

impl Drop for Node {
    fn drop(&mut self) {
        self.log.borrow_mut().push(self.value);
    }
}

fn new_log() -> Log {
    Rc::new(RefCell::new(Vec::new()))
}

fn node(cx: &mut Gc<Node>, s: &Scope, value: u32, log: &Log) -> Local {
    Local::new(
        cx,
        s,
        Node {
            prev: RefCell::new(None),
            next: RefCell::new(None),
            value,
            log: log.clone(),
        },
    )
}

fn value_of(cx: &Gc<Node>, l: &Local) -> u32 {
    l.get(cx).unwrap().value
}

fn node_join(cx: &Gc<Node>, left: &Local, right: &Local) {
    *left.get(cx).unwrap().next.borrow_mut() = Some(right.to_member(cx));
    *right.get(cx).unwrap().prev.borrow_mut() = Some(left.to_member(cx));
}

fn node_rotate_right(cx: &mut Gc<Node>, node: &Local) -> bool {
    let next = *node.get(cx).unwrap().next.borrow();
    if let Some(next) = next {
        next.move_to(cx, node);
        true
    } else {
        false
    }
}

fn node_rotate_left(cx: &mut Gc<Node>, node: &Local) -> bool {
    let prev = *node.get(cx).unwrap().prev.borrow();
    if let Some(prev) = prev {
        prev.move_to(cx, node);
        true
    } else {
        false
    }
}

fn id_of<T>(cx: &Gc<T>, l: &Local) -> usize {
    l.to_member(cx).id()
}

#[test]
fn lib_simple() {
    let mut cx: Gc<Test> = Gc::new(Config::default().stress(true));
    let s = Scope::new(&mut cx);
    let v = Local::new(&mut cx, &s, Test { value: 100 });
    assert_eq!(v.get(&cx).unwrap().value, 100);
    s.close(&mut cx);
}

#[test]
fn lib_mark_and_sweep_0() {
    let cx: &mut Gc<Test> = &mut Gc::new(Config::default().stress(true));
    let s = Scope::new(cx);
    let a = Local::new(cx, &s, Test { value: 100 });
    let b = Local::new(cx, &s, Test { value: 200 });
    assert_eq!(a.get(cx).unwrap().value, 100);
    assert_eq!(b.get(cx).unwrap().value, 200);
    let c = Local::new(cx, &s, Test { value: 300 });
    assert_eq!(c.get(cx).unwrap().value, 300);
    s.collect(cx);
    let chain = vec![id_of(cx, &c), id_of(cx, &b), id_of(cx, &a)];
    assert_eq!(cx.live_cells(), chain);
    assert_eq!(a.get(cx).unwrap().value, 100);
    assert_eq!(b.get(cx).unwrap().value, 200);
    assert_eq!(c.get(cx).unwrap().value, 300);
    s.close(cx);
}

#[test]
fn lib_mark_and_sweep_1() {
    let mut cx: Gc<Test> = Gc::new(Config::default().stress(false));
    let s = Scope::new(&mut cx);
    let a = Local::new(&mut cx, &s, Test { value: 100 });
    {
        let s = Scope::new(&mut cx);
        let _ = Local::new(&mut cx, &s, Test { value: 200 });
        s.close(&mut cx);
    }
    let c = Local::new(&mut cx, &s, Test { value: 300 });
    {
        let s = Scope::new(&mut cx);
        let _ = Local::new(&mut cx, &s, Test { value: 400 });
        s.close(&mut cx);
    }
    {
        let s = Scope::new(&mut cx);
        let _ = Local::new(&mut cx, &s, Test { value: 500 });
        s.close(&mut cx);
    }
    let f = Local::new(&mut cx, &s, Test { value: 600 });
    let total = a.get(&cx).unwrap().value + c.get(&cx).unwrap().value + f.get(&cx).unwrap().value;
    assert_eq!(total, 1000);
    s.collect(&mut cx);
    let chain = vec![id_of(&cx, &f), id_of(&cx, &c), id_of(&cx, &a)];
    assert_eq!(cx.live_cells(), chain);
    s.close(&mut cx);
}

#[test]
fn lib_mark_and_sweep_2() {
    let mut cx: Gc<Object> = Gc::new(Config::default().stress(false));
    let s = Scope::new(&mut cx);
    let data = Local::new(&mut cx, &s, Object::Test(Test { value: 100 })).to_member(&cx);
    let v = Local::new(&mut cx, &s, Object::Compound(Compound { data }));
    let member = match v.get(&cx).unwrap() {
        Object::Compound(c) => c.data,
        Object::Test(_) => panic!("expected a compound"),
    };
    let data = member.in_scope(&mut cx, &s);
    match data.get(&cx).unwrap() {
        Object::Test(t) => assert_eq!(t.value, 100),
        Object::Compound(_) => panic!("expected a test value"),
    }
    s.close(&mut cx);
}

#[test]
fn lib_escape_value() {
    let log = new_log();
    let mut cx: Gc<Node> = Gc::new(Config::default().stress(true));
    let outer = Scope::new(&mut cx);
    let escaped = {
        let mut inner = EscapeScope::new(&mut cx);
        let n = node(&mut cx, inner.scope(), 1, &log);
        let r = inner.escape(&mut cx, &n);
        inner.close(&mut cx);
        r
    };
    outer.collect(&mut cx);
    let foo = node(&mut cx, &outer, 20, &log);
    assert_eq!(value_of(&cx, &escaped), 1);
    assert_eq!(value_of(&cx, &foo), 20);
    outer.close(&mut cx);
}

#[test]
fn tombstone_simple() {
    let log = new_log();
    let cx: &mut Gc<Node> = &mut Gc::new(Config::default().stress(true));
    let outer = Scope::new(cx);
    let ptr = {
        let inner = Scope::new(cx);
        let n = node(cx, &inner, 1, &log);
        inner.close(cx);
        n
    };
    outer.collect(cx);
    // still live: the slot lies below the tombstone and was not reused
    assert_eq!(value_of(cx, &ptr), 1);
    let _ = node(cx, &outer, 2, &log);
    // the slot was reused for the new node
    assert_eq!(value_of(cx, &ptr), 2);
    outer.close(cx);
}

#[test]
fn tombstone_nested() {
    let log = new_log();
    let cx: &mut Gc<Node> = &mut Gc::new(Config::default().stress(true));
    let scope0 = Scope::new(cx);
    let _ = node(cx, &scope0, 1, &log);
    {
        let scope1 = Scope::new(cx);
        let _ = node(cx, &scope1, 2, &log);
        {
            let scope2 = Scope::new(cx);
            let _ = node(cx, &scope2, 3, &log);
            scope2.close(cx);
        }
        scope1.close(cx);
    }
    scope0.collect(cx);
    assert_eq!(*log.borrow(), vec![3]);
    scope0.close(cx);
}

#[test]
fn tombstone_next_block() {
    let log = new_log();
    let cx: &mut Gc<Node> = &mut Gc::new(Config::default().stress(true));
    let outer = Scope::new(cx);
    let first = node(cx, &outer, 1, &log);
    {
        let inner = Scope::new(cx);
        for _ in 0..BLOCK_SIZE {
            let _ = node(cx, &inner, 2, &log);
        }
        inner.close(cx);
    }
    let second = node(cx, &outer, 3, &log);
    // 1 handle apart
    assert_eq!(first.as_ptr().index, second.as_ptr().index);
    let distance = second.as_ptr().pos - first.as_ptr().pos;
    assert_eq!(distance, 1);
    outer.close(cx);
}

#[test]
fn lib_doubly_linked_list() {
    let log = new_log();
    let mut cx: Gc<Node> = Gc::new(Config::default().stress(true));
    {
        let s = Scope::new(&mut cx);
        let root = {
            let mut es = EscapeScope::new(&mut cx);
            let one = node(&mut cx, es.scope(), 1, &log);
            let two = node(&mut cx, es.scope(), 2, &log);
            let three = node(&mut cx, es.scope(), 3, &log);
            let four = node(&mut cx, es.scope(), 4, &log);
            node_join(&cx, &one, &two);
            node_join(&cx, &two, &three);
            node_join(&cx, &three, &four);
            let r = es.escape(&mut cx, &one);
            es.close(&mut cx);
            r
        };

        // traverse the list in both directions
        {
            let s = Scope::new(&mut cx);
            let root = root.in_scope(&mut cx, &s);
            for i in 1..=4 {
                assert_eq!(value_of(&cx, &root), i);
                node_rotate_right(&mut cx, &root);
            }
            for i in (1..=4).rev() {
                assert_eq!(value_of(&cx, &root), i);
                node_rotate_left(&mut cx, &root);
            }
            s.close(&mut cx);
        }

        // make the list circular, and drop the reference to `4`
        {
            let s = Scope::new(&mut cx);
            let one = root.in_scope(&mut cx, &s);
            let two_m = cx_next(&cx, &one);
            let two = two_m.in_scope(&mut cx, &s);
            let three_m = cx_next(&cx, &two);
            let three = three_m.in_scope(&mut cx, &s);
            node_join(&cx, &three, &one);
            s.close(&mut cx);
        }

        s.collect(&mut cx);
        assert_eq!(*log.borrow(), vec![4]);

        // rotating through the circular list goes round: 1, 2, 3, 1, 2, 3
        {
            let s = Scope::new(&mut cx);
            let root = root.in_scope(&mut cx, &s);
            for _ in 0..2 {
                for i in 1..=3 {
                    assert_eq!(value_of(&cx, &root), i);
                    assert!(node_rotate_right(&mut cx, &root));
                }
            }
            s.close(&mut cx);
        }
        s.close(&mut cx);
    }
    cx.free_all();
    drop(cx);
    assert_eq!(*log.borrow(), vec![4, 3, 2, 1]);
}

fn cx_next(cx: &Gc<Node>, l: &Local) -> Member {
    let next = *l.get(cx).unwrap().next.borrow();
    next.unwrap()
}
