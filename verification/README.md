# vllm-top

A live terminal dashboard for a [vLLM](https://docs.vllm.ai) inference server: token
rates, time to first token, cache misses, latency percentiles and health counters, from
the server's `/metrics` endpoint. Nothing is stored; the only state is a ring of the most
recent samples.

The logic of the dashboard is a library verified with [Verus](https://github.com/verus-lang/verus).
`src/` is that library, `app/` the program around it, and `tests/` the tests.

## The library

| Module | What it holds |
|---|---|
| `metrics` | reading a Prometheus text exposition: records, labels, histogram ladders, caps |
| `series` | series keys, their order, and ordered maps from keys to readings |
| `history` | the ring of samples; counter rates and histogram quantiles over a window |
| `derive` | everything that is shown: lanes, stalls, peaks, alarms, pools, latencies |
| `scrape` | the scraped address, messages fit for a terminal, what one scrape changes |
| `args`, `ui` | settings, the state of the screen, the keys |
| `figures`, `lines`, `panels`, `detail`, `tour` | the texts of the screen |
| `screen` | what one frame shows |
| `plot`, `graphs`, `decade` | the geometry of the graphs, what each of the four shows, and the step of their grid |
| `binary64`, `rounding`, `natural`, `decimal`, `fixed` | binary64 arithmetic, reading and writing of numbers |
| `order`, `text` | stable arrangement, characters and words |
| `accuracy`, `laws`, `additivity`, `quantile_laws`, `grid_laws` | what holds of the arithmetic, of the library as a whole, of rates, of quantiles and of the grid |

Numbers are binary64 numbers held by their bit patterns. Sums, differences, products and
quotients are computed on integers and proved to be rounded to the nearest number, ties to
even, so that every rate and quantile has an exact contract. The program converts with
`f64::to_bits` and `f64::from_bits`. Times are nanoseconds.

An interval between two samples is stalled when requests were running and the decode rate
fell below a quarter of the median over the last minute, while a prefill was computing or
requests were queued. It is stalled too when the decode rate could not be read after it had
been seen, while a prefill was computing.

## Use

```
vllm-top                                   # watches http://localhost:8000
vllm-top --url http://localhost:8000 --interval 1.0
vllm-top --url https://gpu-box.home.example.org --insecure
vllm-top --api-key sk-...
vllm-top --once                             # one text snapshot
```

| Key | Action |
|---|---|
| `q` / `Esc` | quit |
| `space` | pause scraping |
| `c` | toggle compact / full layout |
| `g` | toggle graphs |
| `1` `2` `3` | focus the 5s / 15s / 60s window |
| `t` | cycle theme (gruvbox, catppuccin, tokyonight) |
| `e` | explain screen |
| `?` | keymap |
| `+` / `-` | poll interval (0.5 to 10 s) |
| `↑` `↓` | scroll the explain screen |
