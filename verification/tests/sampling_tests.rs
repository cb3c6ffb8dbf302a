use raytracer::sampling::mean_of_samples;

fn plus(a: u32, b: u32) -> u32 {
    a + b
}

fn divide(sum: u32, count: u32) -> u32 {
    if count == 0 {
        0
    } else {
        sum / count
    }
}

#[test]
fn equal_samples_have_themselves_as_mean() {
    let sample = || 4u32;
    assert_eq!(mean_of_samples(3, 0, &sample, &plus, &divide), 4);
}

#[test]
fn the_mean_is_the_sum_over_the_count() {
    let next = std::cell::Cell::new(0u32);
    let sample = || {
        next.set(next.get() + 10);
        next.get()
    };
    // 10 + 20 + 30 + 40 = 100, over 4
    assert_eq!(mean_of_samples(4, 0, &sample, &plus, &divide), 25);
}

#[test]
fn exactly_as_many_samples_are_drawn_as_asked_for() {
    let drawn = std::cell::Cell::new(0u32);
    let sample = || {
        drawn.set(drawn.get() + 1);
        1u32
    };
    let keep = |sum: u32, _count: u32| sum;
    assert_eq!(mean_of_samples(500, 0, &sample, &plus, &keep), 500);
    assert_eq!(drawn.get(), 500);
}

#[test]
fn samples_are_summed_in_the_order_drawn() {
    let next = std::cell::Cell::new(0u32);
    let sample = || {
        next.set(next.get() + 1);
        next.get().to_string()
    };
    let join = |sum: String, s: String| format!("{}{}", sum, s);
    let tag = |sum: String, count: u32| format!("{}/{}", sum, count);
    assert_eq!(mean_of_samples(4, String::from(">"), &sample, &join, &tag), ">1234/4");
}

#[test]
fn without_samples_the_scale_gets_zero() {
    let drawn = std::cell::Cell::new(0u32);
    // a colour that carries, beside its value, the count it was scaled with
    let sample = || {
        drawn.set(drawn.get() + 1);
        (1u32, 0u32)
    };
    let sum_up = |a: (u32, u32), b: (u32, u32)| (a.0 + b.0, 0u32);
    let report = |sum: (u32, u32), count: u32| (sum.0, count);
    assert_eq!(mean_of_samples(0, (7u32, 0u32), &sample, &sum_up, &report), (7, 0));
    assert_eq!(drawn.get(), 0);
    assert_eq!(mean_of_samples(2, (7u32, 0u32), &sample, &sum_up, &report), (9, 2));
    assert_eq!(drawn.get(), 2);
}
