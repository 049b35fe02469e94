# aether_threads

A daemon for Android that binds the threads of apps to CPUs.

* `src/` holds what the daemon decides, verified with Verus: how a configuration and a cache of
  rules are read, which rule a thread follows, which processes are looked at, which CPUs are fast
  and slow, what is cached for apps without rules, and when what is due.
* `app/` holds the daemon itself: it reads the files of the kernel, makes the system calls, and
  writes the log.
* `tests/` runs the library on examples.

JSON text is read by the `json` crate. What is taken on trust about it stands in
`src/document.rs`.

## Use

    aether_threads [-c CONFIG] [-s SECONDS]

The configuration is a JSON list of entries, or an object with such a list under `rules`:

    {
      "features": { "ebpf": true, "auto-for-none": false },
      "rules": [
        {
          "packages": ["com.example.game"],
          "cpuset": { "other": "0-3", "comm": { "7": ["UnityMain", "RenderThread"] } }
        }
      ]
    }
