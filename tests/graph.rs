use std::cell::Cell;
use std::rc::Rc;

use computational_graph::{Args, Dependencies, Graph, NodeKind};

#[derive(Clone, Copy, Debug, PartialEq)]
enum Op {
    Add,
    Mul,
    Sin,
    Pow(f32),
}

fn arith(op: Op, args: Args<f32>) -> f32 {
    match (op, args) {
        (Op::Add, Args::Two(x, y)) => x + y,
        (Op::Mul, Args::Two(x, y)) => x * y,
        (Op::Sin, Args::One(x)) => x.sin(),
        (Op::Pow(e), Args::One(x)) => f32::powf(x, e),
        _ => f32::NAN,
    }
}

fn arith_graph() -> Graph<f32, Op, fn(Op, Args<f32>) -> f32> {
    Graph::new(arith as fn(Op, Args<f32>) -> f32)
}

// round to decimal digits
fn round(x: f32, precision: u32) -> f32 {
    let m = 10i32.pow(precision) as f32;
    (x * m).round() / m
}

#[test]
fn test_input_ref() {
    let mut g = arith_graph();
    let x1 = g.add_input(0.0);
    let x2 = g.add_input(0.0);
    g.set(x1, 1.0);
    let graph = g.binary(Op::Add, x1, x2);
    g.set(x2, 2.0);
    let res = g.compute(graph);
    assert_eq!(res, 3.0);
}

#[test]
fn test_input_invalidation() {
    let mut g = arith_graph();
    let x1 = g.add_input(0.0);
    let x2 = g.add_input(0.0);
    let graph = g.binary(Op::Add, x1, x2);
    g.set(x1, 1.0);
    g.set(x2, 2.0);
    let res = g.compute(graph);
    assert_eq!(res, 3.0);
    g.set(x2, -1.0);
    let res = g.compute(graph);
    assert_eq!(res, 0.0);
}

#[test]
fn test_add_reuse() {
    let mut g = arith_graph();
    let x1 = g.add_input(0.0);
    let x2 = g.add_input(0.0);
    let graph = g.binary(Op::Add, x1, x2);
    g.set(x1, 1.0);
    g.set(x2, 2.0);
    let res = g.compute(graph);
    assert_eq!(res, 3.0);
    let graph = g.binary(Op::Add, graph, x1);
    let res = g.compute(graph);
    assert_eq!(res, 4.0);
    let graph = g.binary(Op::Add, graph, graph);
    let res = g.compute(graph);
    assert_eq!(res, 8.0);
    g.set(x1, -2.0);
    let res = g.compute(graph);
    assert_eq!(res, -4.0);
}

#[test]
fn test_task_reference() {
    // x1, x2, x3 are input nodes of the computational graph:
    let mut g = arith_graph();
    let x1 = g.add_input(0.0);
    let x2 = g.add_input(0.0);
    let x3 = g.add_input(0.0);
    // graph variable is the output node of the graph:
    let p = g.unary(Op::Pow(3f32), x3);
    let s = g.binary(Op::Add, x2, p);
    let sn = g.unary(Op::Sin, s);
    let m = g.binary(Op::Mul, x2, sn);
    let graph = g.binary(Op::Add, x1, m);
    g.set(x1, 1f32);
    g.set(x2, 2f32);
    g.set(x3, 3f32);
    let mut result = g.compute(graph);
    result = round(result, 5);
    println!("Graph output = {}", result);
    assert_eq!(round(result, 5), -0.32727);
    g.set(x1, 2f32);
    g.set(x2, 3f32);
    g.set(x3, 4f32);
    result = g.compute(graph);
    result = round(result, 5);
    println!("Graph output = {}", result);
    assert_eq!(round(result, 5), -0.56656);
}

#[test]
fn test_unary_op() {
    let flag = Rc::new(Cell::new(false));
    let res = {
        let flag = flag.clone();
        let f = move |_op: (), args: Args<f32>| {
            flag.set(true);
            match args {
                Args::One(x) => x,
                Args::Two(x, _) => x,
            }
        };
        let mut g = Graph::new(f);
        let input = g.add_input(0.0);
        g.set(input, 3.3);
        let node = g.unary((), input);
        g.compute(node)
    };
    assert_eq!(res, 3.3);
    assert!(flag.get())
}

#[test]
fn test_binary_op() {
    let flag = Rc::new(Cell::new(false));
    let res = {
        let flag = flag.clone();
        let f = move |_op: (), args: Args<f32>| {
            flag.set(true);
            match args {
                Args::One(x) => x,
                Args::Two(x, y) => x + y,
            }
        };
        let mut g = Graph::new(f);
        let input1 = g.add_input(0.0);
        let input2 = g.add_input(0.0);
        g.set(input1, 3.3);
        g.set(input2, 5.0);
        let node = g.binary((), input1, input2);
        g.compute(node)
    };
    assert_eq!(res, 8.3);
    assert!(flag.get())
}

#[test]
fn test_unrary_op_caching() {
    let x = Rc::new(Cell::new(0));
    let (mut g, node) = {
        let x = x.clone();
        let f = move |_op: (), _args: Args<f32>| {
            let v = x.get();
            x.set(v + 1);
            3.3
        };
        let mut g = Graph::new(f);
        let input = g.add_input(0.0);
        let node = g.unary((), input);
        (g, node)
    };
    assert_eq!(g.compute(node), 3.3);
    assert_eq!(g.compute(node), 3.3);
    assert_eq!(x.get(), 1);
    g.invalidate(node);
    assert_eq!(g.compute(node), 3.3);
    assert_eq!(x.get(), 2);
}

#[test]
fn test_binary_op_caching() {
    let flag = Rc::new(Cell::new(0));
    let (mut g, node) = {
        let flag = flag.clone();
        let f = move |_op: (), args: Args<f32>| {
            let v = flag.get();
            flag.set(v + 1);
            match args {
                Args::One(x) => x,
                Args::Two(x, y) => x + y,
            }
        };
        let mut g = Graph::new(f);
        let input1 = g.add_input(0.0);
        let input2 = g.add_input(0.0);
        g.set(input1, 3.3);
        g.set(input2, 5.0);
        let node = g.binary((), input1, input2);
        (g, node)
    };
    assert_eq!(flag.get(), 0);
    assert_eq!(g.compute(node), 8.3);
    assert_eq!(g.compute(node), 8.3);
    assert_eq!(flag.get(), 1);
    g.invalidate(node);
    assert_eq!(g.compute(node), 8.3);
    assert_eq!(flag.get(), 2);
}

fn counting_sum(calls: Rc<Cell<u32>>) -> impl Fn(u8, Args<i64>) -> i64 {
    move |_op: u8, args: Args<i64>| {
        calls.set(calls.get() + 1);
        match args {
            Args::One(x) => -x,
            Args::Two(x, y) => x + y,
        }
    }
}

#[test]
fn unset_input_reads_zero() {
    let mut g = arith_graph();
    let x = g.add_input(0.0);
    let y = g.add_input(0.0);
    let s = g.binary(Op::Add, x, y);
    assert_eq!(g.compute(s), 0.0);
    assert_eq!(g.compute(x), 0.0);
}

#[test]
fn pull_evaluation_is_lazy_and_cached() {
    let calls = Rc::new(Cell::new(0u32));
    let mut g = Graph::new(counting_sum(calls.clone()));
    let a = g.add_input(2);
    let b = g.add_input(5);
    let s = g.binary(0, a, b);
    let n = g.unary(0, s);
    assert_eq!(calls.get(), 0);
    assert_eq!(g.compute(n), -7);
    assert_eq!(calls.get(), 2);
    assert_eq!(g.compute(n), -7);
    assert_eq!(g.compute(s), 7);
    assert_eq!(calls.get(), 2);
}

#[test]
fn set_recomputes_only_downstream_nodes() {
    let calls = Rc::new(Cell::new(0u32));
    let mut g = Graph::new(counting_sum(calls.clone()));
    let a = g.add_input(1);
    let b = g.add_input(10);
    let c = g.add_input(100);
    let ab = g.binary(0, a, b);
    let bc = g.binary(0, b, c);
    let top = g.binary(0, ab, bc);
    assert_eq!(g.compute(top), 121);
    assert_eq!(calls.get(), 3);
    g.set(a, 4);
    assert_eq!(g.compute(bc), 110);
    assert_eq!(calls.get(), 3);
    assert_eq!(g.compute(top), 124);
    assert_eq!(calls.get(), 5);
    g.set(b, 0);
    assert_eq!(g.compute(top), 104);
    assert_eq!(calls.get(), 8);
}

#[test]
fn invalidate_clears_the_whole_downstream_cone_and_nothing_else() {
    let calls = Rc::new(Cell::new(0u32));
    let mut g = Graph::new(counting_sum(calls.clone()));
    let a = g.add_input(3);
    let b = g.add_input(4);
    let na = g.unary(0, a);
    let nb = g.unary(0, b);
    let top = g.unary(0, na);
    assert_eq!(g.compute(top), 3);
    assert_eq!(g.compute(nb), -4);
    assert_eq!(calls.get(), 3);
    g.invalidate(na);
    assert_eq!(g.compute(nb), -4);
    assert_eq!(calls.get(), 3);
    assert_eq!(g.compute(top), 3);
    assert_eq!(calls.get(), 5);
}

#[test]
fn shared_operand_counts_each_miss_once() {
    let calls = Rc::new(Cell::new(0u32));
    let mut g = Graph::new(counting_sum(calls.clone()));
    let x = g.add_input(21);
    let d = g.binary(0, x, x);
    let dd = g.binary(0, d, d);
    assert_eq!(g.compute(dd), 84);
    assert_eq!(calls.get(), 2);
    g.set(x, 1);
    assert_eq!(g.compute(dd), 4);
    assert_eq!(calls.get(), 4);
}

#[test]
fn same_construction_same_inputs_same_output() {
    let build = |v: i64| {
        let calls = Rc::new(Cell::new(0u32));
        let mut g = Graph::new(counting_sum(calls));
        let a = g.add_input(0);
        let b = g.add_input(v);
        let s = g.binary(0, a, b);
        let t = g.unary(0, s);
        (g, a, t)
    };
    let (mut g1, a1, t1) = build(6);
    let (mut g2, a2, t2) = build(6);
    assert_eq!(g1.compute(t1), -6);
    g1.set(a1, 2);
    g2.set(a2, 2);
    assert_eq!(g1.compute(t1), g2.compute(t2));
    assert_eq!(g2.compute(t2), -8);
}

#[test]
fn repeated_registration_only_repeats_notification() {
    let calls = Rc::new(Cell::new(0u32));
    let mut g = Graph::new(counting_sum(calls.clone()));
    let a = g.add_input(1);
    let n = g.unary(0, a);
    g.add_dependent(a, n);
    assert_eq!(g.compute(n), -1);
    g.set(a, 5);
    assert_eq!(g.compute(n), -5);
    assert_eq!(calls.get(), 2);
}

#[test]
fn graph_len_counts_nodes() {
    let mut g = arith_graph();
    assert_eq!(g.len(), 0);
    let x = g.add_input(1.5);
    let y = g.unary(Op::Sin, x);
    assert_eq!((x, y), (0, 1));
    assert_eq!(g.len(), 2);
    let _ = NodeKind::<f32, Op>::Input(0.0);
}

#[test]
fn dependencies_keep_order_and_repeats() {
    let mut d = Dependencies::new();
    assert_eq!(d.len(), 0);
    d.add(4);
    d.add(2);
    d.add(4);
    assert_eq!(d.len(), 3);
    assert_eq!((d.get(0), d.get(1), d.get(2)), (4, 2, 4));
    let e = d.duplicate();
    assert_eq!(e.len(), 3);
    assert_eq!((e.get(0), e.get(1), e.get(2)), (4, 2, 4));
}
