# nxdl

A downloader and patcher for game clients that are published as manifests of
compressed blocks. It checks what a client consists of, downloads it with
resumption, patches it from one build to the next, and signs in to the account
that some manifests ask for.

The library under `src/` is written in Verus: what each function returns is
stated in its contract and proved. It holds every decision, format and rule of
the tool, and touches neither files nor the network. The program under `app/`
reads arguments, makes requests, writes files and shows progress.

| module | what it holds |
| --- | --- |
| `cli` | arguments, application ids and their aliases, what the arguments ask for |
| `nxl` | NXL manifests: hashes, addresses, paths, blocks, download plans |
| `ngm` | NGM manifests |
| `nxl_patch` | patching: targets, addresses, checks, records, files to fetch whole |
| `diff` | the binary diff format |
| `blocks` | offsets of blocks, resumption, and what the file holds in the end |
| `resume` | the sidecar files `.nxldl` and `.ngmdl` |
| `filter`, `listing`, `report` | path filters, sorted listings, printed lines |
| `login` | regions, the saved session, replies of the account service |
| `miniwzlib` | the version in the header of a WZ archive |
| `net`, `retry`, `taskprogress` | proxies, repeated requests, terminal progress |
| `paths`, `text`, `numerals`, `sizes`, `bytes` | encodings, text, numbers |
| `outside` | what is taken from other crates, and what is relied on |

Properties that span several functions are proof functions whose names begin
with `law_`: a saved session reads back as it was, blocks written in any order
and in any number of runs make the same file, joined diffs make joined files,
a block that was marked is not fetched again, and so on.
