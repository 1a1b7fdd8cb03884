use dfdx::gradients::{backward, Gradients};
use dfdx::ids::UniqueIds;
use dfdx::shape::Shape;
use dfdx::tape::{GradientTape, Step};
use dfdx::tensor::Tensor;

fn close(a: &[f32], b: &[f32]) -> bool {
    a.len() == b.len() && a.iter().zip(b.iter()).all(|(x, y)| (x - y).abs() < 1e-5)
}

fn add(a: f32, b: f32) -> f32 {
    a + b
}

#[test]
fn square_scenario_gradient() {
    let mut ids = UniqueIds::new();
    let mut tape = GradientTape::new();
    let x = Tensor::from_vec(Shape::new(vec![3]).unwrap(), vec![1.0f32, 2.0, 3.0], &mut ids).unwrap();
    let y = x.apply_traced(|v: f32| v * v, &mut ids, &mut tape);
    assert_eq!(y.data(), &vec![1.0f32, 4.0, 9.0]);
    let xs = x.data().clone();
    let rule = |_s: Step, g: &Vec<f32>| -> Vec<f32> { g.iter().zip(xs.iter()).map(|(g, x)| g * 2.0 * x).collect() };
    let grads = backward(&tape, y.id(), vec![1.0f32; 3], 0.0f32, rule, add);
    assert_eq!(grads.gradient_for(x.id(), 0.0, 3), vec![2.0f32, 4.0, 6.0]);
}

#[test]
fn chain_rule_through_two_ops() {
    let mut ids = UniqueIds::new();
    let mut tape = GradientTape::new();
    let x = Tensor::from_vec(Shape::new(vec![2]).unwrap(), vec![0.5f32, -1.25], &mut ids).unwrap();
    let m = x.apply_traced(|v: f32| v * v, &mut ids, &mut tape);
    let y = m.apply_traced(|v: f32| v.sin(), &mut ids, &mut tape);
    let plan = tape.backward_plan(y.id());
    assert_eq!(
        plan,
        vec![
            Step { entry: 1, slot: 0, parent: m.id(), result: y.id() },
            Step { entry: 0, slot: 0, parent: x.id(), result: m.id() },
        ]
    );
    let xs = x.data().clone();
    let ms = m.data().clone();
    let rule = |s: Step, g: &Vec<f32>| -> Vec<f32> {
        if s.entry == 0 {
            g.iter().zip(xs.iter()).map(|(g, x)| g * 2.0 * x).collect()
        } else {
            g.iter().zip(ms.iter()).map(|(g, m)| g * m.cos()).collect()
        }
    };
    let grads = backward(&tape, y.id(), vec![1.0f32; 2], 0.0f32, rule, add);
    let expect: Vec<f32> = xs.iter().map(|x| (x * x).cos() * 2.0 * x).collect();
    assert!(close(&grads.gradient_for(x.id(), 0.0, 2), &expect));
}

#[test]
fn fan_in_sums_contributions() {
    let mut ids = UniqueIds::new();
    let mut tape = GradientTape::new();
    let x = Tensor::from_vec(Shape::new(vec![2]).unwrap(), vec![0.3f32, 2.0], &mut ids).unwrap();
    let y1 = x.apply_traced(|v: f32| v * v, &mut ids, &mut tape);
    let y2 = x.apply_traced(|v: f32| v.sin(), &mut ids, &mut tape);
    let loss = ids.next_id();
    tape.record(vec![y1.id(), y2.id()], loss);
    let xs = x.data().clone();
    let rule = |s: Step, g: &Vec<f32>| -> Vec<f32> {
        match s.entry {
            0 => g.iter().zip(xs.iter()).map(|(g, x)| g * 2.0 * x).collect(),
            1 => g.iter().zip(xs.iter()).map(|(g, x)| g * x.cos()).collect(),
            _ => g.clone(),
        }
    };
    let grads = backward(&tape, loss, vec![1.0f32; 2], 0.0f32, rule, add);
    let expect: Vec<f32> = xs.iter().map(|x| 2.0 * x + x.cos()).collect();
    assert!(close(&grads.gradient_for(x.id(), 0.0, 2), &expect));
    let into_x = tape.backward_plan(loss).iter().filter(|s| s.parent == x.id()).count();
    assert_eq!(into_x, 2);
}

#[test]
fn unrelated_id_gets_zero_gradient() {
    let mut ids = UniqueIds::new();
    let mut tape = GradientTape::new();
    let x = Tensor::from_vec(Shape::new(vec![3]).unwrap(), vec![1.0f32, 2.0, 3.0], &mut ids).unwrap();
    let other = Tensor::filled(Shape::new(vec![3]).unwrap(), 5.0f32, &mut ids);
    let y = x.apply_traced(|v: f32| v * v, &mut ids, &mut tape);
    assert!(!tape.has_gradient(y.id(), other.id()));
    assert!(tape.has_gradient(y.id(), x.id()));
    let grads = backward(&tape, y.id(), vec![1.0f32; 3], 0.0f32, |_s: Step, g: &Vec<f32>| g.clone(), add);
    assert_eq!(grads.gradient_for(other.id(), 0.0, 3), vec![0.0f32; 3]);
}

#[test]
fn empty_tape_gives_zeros() {
    let tape = GradientTape::new();
    assert_eq!(tape.len(), 0);
    assert!(tape.backward_plan(7).is_empty());
    assert!(!tape.has_gradient(7, 3));
    let grads = backward(&tape, 7, vec![1.0f32; 2], 0.0f32, |_s: Step, g: &Vec<f32>| g.clone(), add);
    assert_eq!(grads.gradient_for(3, 0.0, 2), vec![0.0f32; 2]);
    assert_eq!(grads.gradient_for(7, 0.0, 2), vec![1.0f32; 2]);
}

#[test]
fn entries_not_reaching_seed_are_skipped() {
    let mut tape = GradientTape::new();
    tape.record(vec![1], 2);
    tape.record(vec![3], 4);
    tape.record(vec![2], 5);
    let plan = tape.backward_plan(5);
    assert_eq!(
        plan,
        vec![Step { entry: 2, slot: 0, parent: 2, result: 5 }, Step { entry: 0, slot: 0, parent: 1, result: 2 }]
    );
    assert!(!tape.has_gradient(5, 3));
    assert!(tape.has_gradient(5, 1));
    assert_eq!(tape.entry(1).result, 4);
}

#[test]
fn accumulate_adds_elementwise() {
    let mut g: Gradients<f32> = Gradients::new();
    g.accumulate(4, &vec![1.0, 2.0], 0.0, &add);
    g.accumulate(4, &vec![0.5, 0.5], 0.0, &add);
    g.accumulate(9, &vec![3.0, 3.0], 0.0, &add);
    assert_eq!(g.gradient_for(4, 0.0, 2), vec![1.5f32, 2.5]);
    assert_eq!(g.gradient_for(9, 0.0, 2), vec![3.0f32, 3.0]);
    assert_eq!(g.gradient_for(1, 0.0, 2), vec![0.0f32, 0.0]);
    let s = Gradients::seeded(2, vec![1.0f32, 1.0]);
    assert_eq!(s.gradient_for(2, 0.0, 2), vec![1.0f32, 1.0]);
}

#[test]
fn diamond_plan_writes_before_reads() {
    let mut tape = GradientTape::new();
    tape.record(vec![1], 2);
    tape.record(vec![1], 3);
    tape.record(vec![2, 3], 4);
    tape.record(vec![4, 2], 5);
    let plan = tape.backward_plan(5);
    for (p, read) in plan.iter().enumerate() {
        for (q, write) in plan.iter().enumerate() {
            if write.parent == read.result {
                assert!(q < p);
            }
        }
    }
    assert_eq!(plan.iter().filter(|s| s.parent == 1).count(), 2);
    assert_eq!(plan.iter().filter(|s| s.parent == 2).count(), 2);
}
