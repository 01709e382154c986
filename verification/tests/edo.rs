use tuners::edo::{Edo, EdoInterval};

#[test]
fn edo_new() {
    let edo = Edo::new(12);

    assert_eq!(edo, Edo { divisions: 12 });
}

#[test]
fn interval() {
    let edo = Edo::new(12);

    let p5 = edo.interval(7);

    assert_eq!(
        p5,
        EdoInterval {
            edo: &edo,
            steps: 7
        }
    );
}
