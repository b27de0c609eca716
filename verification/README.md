# johnnybt_engine

An account walk, as a verified Rust library. It takes what a portfolio should
hold on each bar and reports what it actually held, what it paid, and what it
was worth — the path-dependent half of a backtest, the half that cannot be
vectorised.

```
decisions ──► Account (phases every market shares) ──► equity, positions, fills
                  └── Bookkeeping (how a decision is funded, sized, filled)
```

The kernel knows nothing about any particular market. `Account` owns the
phases every walk shares: mark, corporate actions, move refused names into the
disposal pool, retry the pool at each price point, snapshot equity, value at
the close. How a decision turns into fills is a `Bookkeeping` implementation;
`Plain`, included here, is market-neutral.

## What is proved

Every function carries a contract that says what it returns or changes, bit
for bit. Doubles are carried as their 64 bits, and their arithmetic is defined
on integers: the exact result, rounded once to nearest, ties to even.

| module | what it holds |
| --- | --- |
| `rounding`, `binary64`, `arithmetic` | double precision on integers, and its laws |
| `grid`, `inputs` | the arrays a simulation reads, on top of `ndarray` |
| `names` | ascending lists of names |
| `ledger`, `account` | the account as a value, its phases, and the code |
| `plain`, `bookkeeping` | the market-neutral policy as a value, the trait, and the code |
| `driver` | the walk over the bars, one run and all of them on `rayon` |
| `frame`, `decisions`, `rulebook`, `assembly`, `plugin` | reading a frame's columns, numbering its decisions, answering with columns |
| `dense`, `twin` | the walk over the names in play is, bit for bit, the walk over every name |
| `record`, `silence` | every fill is answered, cash, fees and turnover are the fills', and asking for fills or positions changes no series |
| `agreement`, `defaults` | what an answer depends on: no later bar, no other run, and not whether a column that says nothing is named |
| `laws`, `orders` | what holds of every account under `Plain`, and what its trading keeps |

What is not proved here is stated where it is used: the five calls into
`ndarray` in `grid`, and the one into `rayon` in `driver`.

## Layout

- `src/` is the library.
- `tests/` runs it, among others against a dense scan in the machine's own
  doubles.
- `app/` is the face for a polars expression plugin: series in, series out,
  and the deserialised kwargs.
