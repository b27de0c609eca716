//! The frame-in, frame-out marshalling, on the smallest account there is.

use johnnybt_engine::assembly::SimulateError;
use johnnybt_engine::binary64::Binary64;
use johnnybt_engine::bookkeeping::Plain;
use johnnybt_engine::frame::Column;
use johnnybt_engine::plugin::{output_field, simulate, Cells, Firing, SimulateKwargs, FILL_COLUMNS};

fn number(x: f64) -> Binary64 {
    Binary64 { bits: x.to_bits() }
}

fn float(x: &Binary64) -> f64 {
    f64::from_bits(x.bits)
}

fn lists_f64(rows: &[Vec<f64>]) -> Column {
    Column::NumberLists(
        rows.iter()
            .map(|row| Some(row.iter().map(|x| Some(number(*x))).collect()))
            .collect(),
    )
}

fn lists_bool(rows: &[Vec<bool>]) -> Column {
    Column::SwitchLists(
        rows.iter()
            .map(|row| Some(row.iter().map(|x| Some(*x)).collect()))
            .collect(),
    )
}

fn lists_i32(rows: &[Vec<i32>]) -> Column {
    Column::CodeLists(
        rows.iter()
            .map(|row| Some(row.iter().map(|x| Some(*x)).collect()))
            .collect(),
    )
}

fn codes(values: &[i32]) -> Column {
    Column::Codes(values.iter().map(|x| Some(*x)).collect())
}

fn switches(values: &[bool]) -> Column {
    Column::Switches(values.iter().map(|x| Some(*x)).collect())
}

fn rulebook() -> Vec<Vec<Vec<Binary64>>> {
    let mut rates = vec![vec![vec![number(0.0); 10]; 1]; 8];
    rates[0][0][0] = number(100.0); // lot
    rates[3][0][0] = number(1.0); // multiplier
    rates
}

fn market(steps: usize, plan: &[Vec<f64>]) -> Vec<Column> {
    let price = vec![vec![10.0]; steps];
    let yes = vec![vec![true]; steps];
    let no = vec![vec![false]; steps];
    vec![
        lists_f64(&price),
        lists_f64(&price),
        lists_bool(&yes),
        lists_bool(&yes),
        lists_bool(&no),
        lists_i32(&vec![vec![0]; steps]),
        codes(&vec![0i32; steps]),
        switches(&vec![true; steps]),
        lists_f64(plan),
    ]
}

fn terms(positions: bool, fills: bool) -> SimulateKwargs {
    SimulateKwargs {
        points: 1,
        tranches: 1,
        mark: 0,
        previous: None,
        prices: vec![1],
        buyable: Some(vec![2]),
        sellable: Some(vec![3]),
        impound: Some(vec![4]),
        firings: vec![Firing {
            tranche: 0,
            point: 0,
            plan: 8,
            standing: None,
        }],
        instrument: 5,
        epoch: 6,
        new_day: 7,
        rates: rulebook(),
        flags: vec![vec![false; 10], vec![false; 10]],
        capital: number(1_000_000.0),
        buffer: number(0.97),
        audit: false,
        positions,
        fills,
    }
}

#[test]
fn an_account_holding_nothing_keeps_its_capital() {
    let steps = 4;
    let inputs = market(steps, &vec![vec![0.0]; steps]);
    let out = simulate::<Plain>(&inputs, &terms(true, false)).expect("walks");
    assert_eq!(float(&out.equity[steps - 1]), 1_000_000.0);
    let held = out.position.expect("positions");
    assert_eq!(held.len(), steps);
}

#[test]
fn asking_for_fills_answers_every_one_of_them() {
    let steps = 4;
    // Hold nothing, then everything from the second bar on: one buy, no sells.
    let plan = vec![vec![0.0], vec![1.0], vec![1.0], vec![1.0]];
    let inputs = market(steps, &plan);
    let out = simulate::<Plain>(&inputs, &terms(false, true)).expect("walks");
    let columns = out.fills.expect("fills");
    let lengths = [
        columns.tranche.len(),
        columns.asset.len(),
        columns.point.len(),
        columns.units.len(),
        columns.price.len(),
        columns.fee.len(),
    ];
    for (column, length) in FILL_COLUMNS.iter().zip(lengths) {
        assert_eq!(length, steps, "{column} answers one list per bar");
    }
    // The buy lands on the bar the plan first asks for it, and nowhere else.
    let counts: Vec<usize> = (0..steps).map(|bar| columns.units[bar].len()).collect();
    assert_eq!(counts, vec![0, 1, 0, 0], "one fill, on the second bar");
    let quantity = float(&columns.units[1][0]);
    assert!(quantity > 0.0, "a buy is positive units, got {quantity}");
    // 1,000,000 * 0.97 buffer at 10.00 a share, rounded down to whole lots.
    assert_eq!(quantity, 97_000.0);
    assert_eq!(float(&columns.price[1][0]), 10.0);
}

fn listed(out: &[Binary64]) -> Vec<f64> {
    out.iter().map(float).collect()
}

fn refused(inputs: &[Column], kwargs: &SimulateKwargs) -> SimulateError {
    match simulate::<Plain>(inputs, kwargs) {
        Ok(_) => panic!("walks"),
        Err(error) => error,
    }
}

#[test]
fn the_output_field_names_what_is_answered() {
    let bare = output_field("simulate", false, false);
    assert_eq!(bare.name, "simulate");
    let names: Vec<&str> = bare.columns.iter().map(|column| column.name.as_str()).collect();
    assert_eq!(names, vec!["equity", "cash", "fees", "bought", "sold"]);
    assert!(bare.columns.iter().all(|column| column.cells == Cells::Number));
    let full = output_field("walk", true, true);
    assert_eq!(full.columns.len(), 12);
    assert_eq!(full.columns[5].name, "position");
    assert_eq!(full.columns[5].cells, Cells::Numbers);
    for (k, name) in FILL_COLUMNS.iter().enumerate() {
        assert_eq!(&full.columns[6 + k].name, name);
        let wanted = if k < 3 { Cells::Codes } else { Cells::Numbers };
        assert_eq!(full.columns[6 + k].cells, wanted);
    }
    assert_eq!(output_field("x", false, true).columns.len(), 11);
}

#[test]
fn what_is_not_asked_for_is_not_answered() {
    let inputs = market(2, &[vec![1.0], vec![0.0]]);
    let out = simulate::<Plain>(&inputs, &terms(false, false)).expect("walks");
    assert!(out.position.is_none());
    assert!(out.fills.is_none());
    assert_eq!(listed(&out.cash), vec![30_000.0, 1_000_000.0]);
    assert_eq!(listed(&out.bought), vec![970_000.0, 0.0]);
    assert_eq!(listed(&out.sold), vec![0.0, 970_000.0]);
    assert_eq!(listed(&out.fees), vec![0.0, 0.0]);
}

#[test]
fn positions_are_a_list_per_bar() {
    let inputs = market(3, &[vec![0.0], vec![1.0], vec![1.0]]);
    let out = simulate::<Plain>(&inputs, &terms(true, false)).expect("walks");
    let held: Vec<Vec<f64>> = out.position.expect("positions").iter().map(|row| listed(row)).collect();
    assert_eq!(held, vec![vec![0.0], vec![97_000.0], vec![97_000.0]]);
}

#[test]
fn a_missing_plan_row_fires_nothing() {
    let mut inputs = market(3, &[vec![1.0], vec![1.0], vec![1.0]]);
    inputs[8] = Column::NumberLists(vec![None, Some(vec![Some(number(1.0))]), None]);
    let out = simulate::<Plain>(&inputs, &terms(false, true)).expect("walks");
    let fills = out.fills.expect("fills");
    let counts: Vec<usize> = fills.units.iter().map(|list| list.len()).collect();
    assert_eq!(counts, vec![0, 1, 0]);
}

#[test]
fn a_missing_weight_asks_for_nothing_and_a_short_row_is_filled_up() {
    let mut inputs = market(2, &[vec![1.0], vec![1.0]]);
    inputs[8] = Column::NumberLists(vec![Some(vec![None]), Some(vec![])]);
    let out = simulate::<Plain>(&inputs, &terms(false, true)).expect("walks");
    assert_eq!(listed(&out.cash), vec![1_000_000.0; 2]);
}

#[test]
fn a_plan_that_never_fires_may_be_of_any_type() {
    let mut inputs = market(2, &[vec![1.0], vec![1.0]]);
    inputs[8] = Column::OtherLists(vec![None, None]);
    let out = simulate::<Plain>(&inputs, &terms(false, false)).expect("walks");
    assert_eq!(listed(&out.equity), vec![1_000_000.0; 2]);
}

#[test]
fn planes_not_named_are_open_markets() {
    let inputs = market(2, &[vec![1.0], vec![0.0]]);
    let mut kwargs = terms(false, false);
    kwargs.buyable = None;
    kwargs.sellable = None;
    kwargs.impound = None;
    let out = simulate::<Plain>(&inputs, &kwargs).expect("walks");
    assert_eq!(listed(&out.sold), vec![0.0, 970_000.0]);
}

#[test]
fn a_missing_price_or_switch_reads_as_none() {
    // No price on the first bar, and nothing buyable on the second.
    let mut inputs = market(3, &vec![vec![1.0]; 3]);
    inputs[1] = Column::NumberLists(vec![
        None,
        Some(vec![Some(number(10.0))]),
        Some(vec![Some(number(10.0))]),
    ]);
    inputs[2] = Column::SwitchLists(vec![Some(vec![Some(true)]), None, Some(vec![Some(true)])]);
    let out = simulate::<Plain>(&inputs, &terms(false, true)).expect("walks");
    let fills = out.fills.expect("fills");
    let counts: Vec<usize> = fills.units.iter().map(|list| list.len()).collect();
    assert_eq!(counts, vec![0, 0, 1]);
}

#[test]
fn rows_that_fill_the_plane_exactly_are_read_through() {
    // Two bars of two names, the four marks given as a row of one and one
    // of three.
    let mut inputs = market(2, &[]);
    inputs[0] = lists_f64(&[vec![10.0, 10.0], vec![10.0, 10.0]]);
    inputs[1] = lists_f64(&[vec![10.0], vec![20.0, 30.0, 40.0]]);
    for plane in [2, 3] {
        inputs[plane] = lists_bool(&vec![vec![true; 2]; 2]);
    }
    inputs[4] = lists_bool(&vec![vec![false; 2]; 2]);
    inputs[5] = lists_i32(&vec![vec![0, 0]; 2]);
    inputs[8] = lists_f64(&[vec![0.0, 0.5], vec![0.5, 0.0]]);
    let out = simulate::<Plain>(&inputs, &terms(false, true)).expect("walks");
    let fills = out.fills.expect("fills");
    assert_eq!(listed(&fills.price[0]), vec![20.0]);
    assert_eq!(fills.asset[0], vec![1]);
    assert_eq!(listed(&fills.price[1]), vec![40.0, 30.0]);
    assert_eq!(fills.asset[1], vec![1, 0]);
}

#[test]
fn decisions_of_one_tranche_interleave_by_bar_then_point() {
    // Two points a bar: the firing listed first decides at the second one.
    let steps = 2;
    let mut inputs = market(steps, &vec![vec![0.5]; steps]);
    inputs.push(lists_f64(&vec![vec![0.0]; steps]));
    let mut kwargs = terms(false, true);
    kwargs.points = 2;
    kwargs.prices = vec![1, 1];
    kwargs.buyable = Some(vec![2, 2]);
    kwargs.sellable = Some(vec![3, 3]);
    kwargs.impound = Some(vec![4, 4]);
    kwargs.firings = vec![
        Firing {
            tranche: 0,
            point: 1,
            plan: 9,
            standing: None,
        },
        Firing {
            tranche: 0,
            point: 0,
            plan: 8,
            standing: None,
        },
    ];
    let out = simulate::<Plain>(&inputs, &kwargs).expect("walks");
    let fills = out.fills.expect("fills");
    for bar in 0..steps {
        assert_eq!(fills.point[bar], vec![0, 1]);
        assert!(float(&fills.units[bar][0]) > 0.0);
        assert!(float(&fills.units[bar][1]) < 0.0);
        assert_eq!(fills.tranche[bar], vec![0, 0]);
    }
}

#[test]
fn the_last_firing_at_a_point_is_the_one_that_decides() {
    let mut inputs = market(1, &[vec![1.0]]);
    inputs.push(lists_f64(&[vec![0.5]]));
    let mut kwargs = terms(true, false);
    kwargs.firings.push(Firing {
        tranche: 0,
        point: 0,
        plan: 9,
        standing: None,
    });
    let out = simulate::<Plain>(&inputs, &kwargs).expect("walks");
    assert_eq!(listed(&out.position.expect("positions")[0]), vec![48_500.0]);
}

#[test]
fn a_standing_firing_acts_only_on_a_change() {
    let steps = 3;
    let mut inputs = market(steps, &vec![vec![0.5]; steps]);
    inputs[1] = lists_f64(&[vec![10.0], vec![20.0], vec![20.0]]);
    inputs.push(Column::Switches(vec![Some(true), Some(true), None]));
    let mut kwargs = terms(false, true);
    kwargs.firings[0].standing = Some(9);
    let out = simulate::<Plain>(&inputs, &kwargs).expect("walks");
    let fills = out.fills.expect("fills");
    let counts: Vec<usize> = fills.units.iter().map(|list| list.len()).collect();
    assert_eq!(counts, vec![1, 0, 1]);
}

#[test]
fn price_points_and_price_columns_have_to_match() {
    let inputs = market(1, &[vec![0.0]]);
    let mut kwargs = terms(false, false);
    kwargs.points = 2;
    assert_eq!(
        refused(&inputs, &kwargs),
        SimulateError::PricePoints {
            points: 2,
            columns: 1
        },
    );
}

#[test]
fn a_column_of_the_wrong_kind_is_refused() {
    let fresh = || market(1, &[vec![0.0]]);
    let mut inputs = fresh();
    inputs[0] = codes(&[1]);
    assert_eq!(refused(&inputs, &terms(false, false)), SimulateError::Column { index: 0 });
    let mut inputs = fresh();
    inputs[1] = lists_bool(&[vec![true]]);
    assert_eq!(refused(&inputs, &terms(false, false)), SimulateError::Column { index: 1 });
    let mut inputs = fresh();
    inputs[3] = lists_f64(&[vec![1.0]]);
    assert_eq!(refused(&inputs, &terms(false, false)), SimulateError::Column { index: 3 });
    let mut inputs = fresh();
    inputs[5] = lists_bool(&[vec![true]]);
    assert_eq!(refused(&inputs, &terms(false, false)), SimulateError::Column { index: 5 });
    let mut inputs = fresh();
    inputs[6] = switches(&[true]);
    assert_eq!(refused(&inputs, &terms(false, false)), SimulateError::Column { index: 6 });
    let mut inputs = fresh();
    inputs[7] = Column::Other;
    assert_eq!(refused(&inputs, &terms(false, false)), SimulateError::Column { index: 7 });
    let mut inputs = fresh();
    inputs[8] = lists_i32(&[vec![1]]);
    assert_eq!(refused(&inputs, &terms(false, false)), SimulateError::Column { index: 8 });
    let mut kwargs = terms(false, false);
    kwargs.firings[0].standing = Some(6);
    assert_eq!(refused(&fresh(), &kwargs), SimulateError::Column { index: 6 });
}

#[test]
fn parts_that_do_not_fit_together_are_refused() {
    let fresh = || market(2, &vec![vec![0.5]; 2]);
    let mut kwargs = terms(false, false);
    kwargs.new_day = 40;
    assert_eq!(refused(&fresh(), &kwargs), SimulateError::Malformed);
    let mut kwargs = terms(false, false);
    kwargs.firings[0].tranche = 1;
    assert_eq!(refused(&fresh(), &kwargs), SimulateError::Malformed);
    let mut kwargs = terms(false, false);
    kwargs.firings[0].point = 1;
    assert_eq!(refused(&fresh(), &kwargs), SimulateError::Malformed);
    let mut inputs = fresh();
    inputs[5] = lists_i32(&vec![vec![0, 0]; 2]);
    assert_eq!(refused(&inputs, &terms(false, false)), SimulateError::Malformed);
    let mut inputs = fresh();
    inputs[6] = codes(&[0]);
    assert_eq!(refused(&inputs, &terms(false, false)), SimulateError::Malformed);
    let mut inputs = fresh();
    inputs[8] = lists_f64(&vec![vec![0.5, 0.5]; 2]);
    assert_eq!(refused(&inputs, &terms(false, false)), SimulateError::Malformed);
    let mut inputs = fresh();
    inputs[1] = lists_f64(&vec![vec![0.5, 0.5]; 2]);
    assert_eq!(refused(&inputs, &terms(false, false)), SimulateError::Malformed);
}

#[test]
fn positions_of_no_names_are_refused() {
    let mut inputs = market(1, &[vec![]]);
    inputs[0] = lists_f64(&[vec![]]);
    inputs[1] = lists_f64(&[vec![]]);
    for plane in [2, 3, 4] {
        inputs[plane] = lists_bool(&[vec![]]);
    }
    inputs[5] = lists_i32(&[vec![]]);
    assert_eq!(refused(&inputs, &terms(true, false)), SimulateError::NoNames);
    let out = simulate::<Plain>(&inputs, &terms(false, false)).expect("walks");
    assert_eq!(listed(&out.equity), vec![1_000_000.0]);
}

#[test]
fn no_bars_answer_nothing() {
    let inputs = market(0, &[]);
    let out = simulate::<Plain>(&inputs, &terms(true, true)).expect("walks");
    assert!(out.equity.is_empty());
    assert!(out.position.expect("positions").is_empty());
    assert!(out.fills.expect("fills").fee.is_empty());
}

#[test]
fn a_corporate_action_is_read_from_the_reference_close() {
    let mut inputs = market(2, &[vec![1.0], vec![0.0]]);
    inputs[1] = lists_f64(&[vec![10.0], vec![5.0]]);
    inputs[8] = Column::NumberLists(vec![Some(vec![Some(number(1.0))]), None]);
    inputs.push(lists_f64(&[vec![10.0], vec![5.0]]));
    let mut kwargs = terms(true, false);
    kwargs.previous = Some(9);
    let out = simulate::<Plain>(&inputs, &kwargs).expect("walks");
    let held = out.position.expect("positions");
    assert_eq!(listed(&held[0]), vec![97_000.0]);
    assert_eq!(listed(&held[1]), vec![194_000.0]);
}

#[test]
fn rules_that_no_name_needs_may_be_missing() {
    let idle = || market(3, &vec![vec![0.0]; 3]);
    let kept = |inputs: &[Column], kwargs: &SimulateKwargs| {
        let out = simulate::<Plain>(inputs, kwargs).expect("walks");
        assert_eq!(listed(&out.equity), vec![1_000_000.0; 3]);
        assert_eq!(listed(&out.cash), vec![1_000_000.0; 3]);
    };
    // One row of flags, no rates, no rules at all.
    let mut kwargs = terms(false, false);
    kwargs.flags.pop();
    kept(&idle(), &kwargs);
    let mut kwargs = terms(false, false);
    kwargs.rates = vec![];
    kept(&idle(), &kwargs);
    kwargs.flags = vec![];
    kept(&idle(), &kwargs);
    // A class or an epoch the rulebook does not have.
    let mut inputs = idle();
    inputs[5] = lists_i32(&vec![vec![-1]; 3]);
    inputs[6] = codes(&[4, -1, 0]);
    kept(&inputs, &terms(false, false));
    // A price point no column says anything of.
    let mut kwargs = terms(false, false);
    kwargs.buyable = Some(vec![]);
    kwargs.sellable = Some(vec![]);
    kwargs.impound = Some(vec![]);
    kept(&idle(), &kwargs);
}

#[test]
fn a_rulebook_without_sales_or_shorts_buys() {
    // Nothing is sold, so no fee of a sale is read, and a row of flags that
    // ends early is off from there on.
    let inputs = market(2, &vec![vec![1.0]; 2]);
    let mut kwargs = terms(false, true);
    kwargs.rates[5] = vec![];
    kwargs.flags[1] = vec![];
    let out = simulate::<Plain>(&inputs, &kwargs).expect("walks");
    assert_eq!(listed(&out.fills.expect("fills").units[0]), vec![97_000.0]);
}

#[test]
fn a_rate_the_rulebook_does_not_have_is_not_a_number() {
    let mut inputs = market(1, &[vec![0.5]]);
    inputs[5] = lists_i32(&[vec![10]]);
    let out = simulate::<Plain>(&inputs, &terms(false, false)).expect("walks");
    assert!(float(&out.equity[0]).is_nan());
}

#[test]
fn no_column_is_a_column_that_says_nothing() {
    let steps = 3;
    let mut inputs = market(steps, &[vec![1.0], vec![0.5], vec![0.0]]);
    inputs.push(switches(&[false; 3]));
    let mut named = terms(true, true);
    named.firings[0].standing = Some(9);
    let mut bare = terms(true, true);
    bare.buyable = None;
    bare.sellable = None;
    bare.impound = None;
    let one = simulate::<Plain>(&inputs, &named).expect("walks");
    let other = simulate::<Plain>(&inputs, &bare).expect("walks");
    assert_eq!(listed(&one.equity), listed(&other.equity));
    assert_eq!(listed(&one.cash), listed(&other.cash));
    assert_eq!(listed(&one.fees), listed(&other.fees));
    assert_eq!(listed(&one.bought), vec![970_000.0, 0.0, 0.0]);
    assert_eq!(listed(&one.bought), listed(&other.bought));
    assert_eq!(listed(&one.sold), listed(&other.sold));
    let (ours, theirs) = (one.fills.expect("fills"), other.fills.expect("fills"));
    for bar in 0..steps {
        assert_eq!(listed(&ours.units[bar]), listed(&theirs.units[bar]));
    }
    // Neither does naming them change why a simulation is refused.
    inputs[7] = Column::Other;
    assert_eq!(refused(&inputs, &named), refused(&inputs, &bare));
}
